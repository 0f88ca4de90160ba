//! Defaults of the topic settings that the broker honours.
//!
//! A client that describes a topic is told every setting with its default and
//! a line of documentation. The default that is told and the one that is
//! enforced come from the same table.

use vstd::prelude::*;
use crate::config_type;
use crate::text;
use crate::text::{parse_decimal, text_eq};

verus! {

/// One setting.
#[derive(Debug, Clone, Copy)]
pub struct Entry {
    pub dotted_name: &'static str,
    /// None where the default is not set.
    pub default_value: Option<&'static str>,
    pub config_type: i8,
    pub documentation: &'static str,
}

#[verifier::ext_equal]
pub struct EntryRow {
    pub name: Seq<char>,
    pub default: Option<Seq<char>>,
    pub kind: i8,
    pub doc: Seq<char>,
}

impl View for Entry {
    type V = EntryRow;

    open spec fn view(&self) -> EntryRow {
        EntryRow {
            name: self.dotted_name@,
            default: match self.default_value {
                Some(v) => Some(v@),
                None => None,
            },
            kind: self.config_type,
            doc: self.documentation@,
        }
    }
}

/// The default for keeping records: seven days, in milliseconds.
pub const SEVEN_DAYS_MS: u64 = 604_800_000;

pub open spec fn row(name: Seq<char>, default: Seq<char>, kind: i8, doc: Seq<char>) -> EntryRow {
    EntryRow { name, default: Some(default), kind, doc }
}

/// The settings.
pub open spec fn table() -> Seq<EntryRow> {
    seq![
        row(
            "retention.ms"@,
            "604800000"@,
            config_type::LONG,
            "Maximum time before old log segments are deleted. -1 = retain forever."@,
        ),
        row(
            "retention.bytes"@,
            "-1"@,
            config_type::LONG,
            "Maximum total bytes per partition before old segments are deleted. -1 = unlimited."@,
        ),
        row("segment.bytes"@, "1073741824"@, config_type::INT, "Bytes at which the active segment rolls."@),
        row(
            "segment.ms"@,
            "604800000"@,
            config_type::LONG,
            "Time after which the active segment rolls, even if it is under segment.bytes. -1 = never roll on time."@,
        ),
        row(
            "cleanup.policy"@,
            "delete"@,
            config_type::LIST,
            "Either 'delete' (size/age retention), 'compact' (log compaction), or 'compact,delete'."@,
        ),
        row(
            "min.compaction.lag.ms"@,
            "0"@,
            config_type::LONG,
            "Minimum time a message must remain uncompacted (KIP-58). 0 = compact immediately."@,
        ),
        row(
            "delete.retention.ms"@,
            "86400000"@,
            config_type::LONG,
            "Tombstone retention for compacted topics (KIP-354). 0 = tombstones live forever."@,
        ),
    ]
}

fn entry(dotted_name: &'static str, default: &'static str, kind: i8, documentation: &'static str) -> (e: Entry)
    ensures
        e@ == row(dotted_name@, default@, kind, documentation@),
{
    Entry { dotted_name, default_value: Some(default), config_type: kind, documentation }
}

/// The settings, as a list.
pub fn all_keys() -> (v: Vec<Entry>)
    ensures
        v@.map_values(|e: Entry| e@) == table(),
{
    let mut v: Vec<Entry> = Vec::new();
    v.push(entry(
        "retention.ms",
        "604800000",
        config_type::LONG,
        "Maximum time before old log segments are deleted. -1 = retain forever.",
    ));
    v.push(entry(
        "retention.bytes",
        "-1",
        config_type::LONG,
        "Maximum total bytes per partition before old segments are deleted. -1 = unlimited.",
    ));
    v.push(entry("segment.bytes", "1073741824", config_type::INT, "Bytes at which the active segment rolls."));
    v.push(entry(
        "segment.ms",
        "604800000",
        config_type::LONG,
        "Time after which the active segment rolls, even if it is under segment.bytes. -1 = never roll on time.",
    ));
    v.push(entry(
        "cleanup.policy",
        "delete",
        config_type::LIST,
        "Either 'delete' (size/age retention), 'compact' (log compaction), or 'compact,delete'.",
    ));
    v.push(entry(
        "min.compaction.lag.ms",
        "0",
        config_type::LONG,
        "Minimum time a message must remain uncompacted (KIP-58). 0 = compact immediately.",
    ));
    v.push(entry(
        "delete.retention.ms",
        "86400000",
        config_type::LONG,
        "Tombstone retention for compacted topics (KIP-354). 0 = tombstones live forever.",
    ));
    assert(v@.map_values(|e: Entry| e@) =~= table());
    v
}

/// The first row with a name, from a place on.
pub open spec fn named(rows: Seq<EntryRow>, name: Seq<char>, i: int) -> Option<EntryRow>
    decreases rows.len() - i,
{
    if i < 0 || i >= rows.len() {
        None
    } else if rows[i].name == name {
        Some(rows[i])
    } else {
        named(rows, name, i + 1)
    }
}

pub fn lookup(name: &str) -> (r: Option<Entry>)
    ensures
        match r {
            Some(e) => named(table(), name@, 0) == Some(e@),
            None => named(table(), name@, 0) is None,
        },
{
    let v = all_keys();
    let ghost rows = v@.map_values(|e: Entry| e@);
    let mut i: usize = 0;
    while i < v.len()
        invariant
            i <= v@.len(),
            rows == v@.map_values(|e: Entry| e@),
            rows == table(),
            named(table(), name@, 0) == named(rows, name@, i as int),
        decreases v.len() - i,
    {
        if text_eq(v[i].dotted_name, name) {
            return Some(v[i]);
        }
        i = i + 1;
    }
    None
}

proof fn lemma_retention_default()
    ensures
        text::decimal("604800000"@) == Some(604_800_000int),
{
    reveal_strlit("604800000");
    let s = "604800000"@;
    assert(s.len() == 9);
    assert(s =~= seq!['6', '0', '4', '8', '0', '0', '0', '0', '0']);
    assert(text::all_digits(s));
    let d1 = seq!['6'];
    let d2 = d1.push('0');
    let d3 = d2.push('4');
    let d4 = d3.push('8');
    let d5 = d4.push('0');
    let d6 = d5.push('0');
    let d7 = d6.push('0');
    let d8 = d7.push('0');
    let d9 = d8.push('0');
    assert(s =~= d9);
    assert(d9.drop_last() =~= d8);
    assert(d8.drop_last() =~= d7);
    assert(d7.drop_last() =~= d6);
    assert(d6.drop_last() =~= d5);
    assert(d5.drop_last() =~= d4);
    assert(d4.drop_last() =~= d3);
    assert(d3.drop_last() =~= d2);
    assert(d2.drop_last() =~= d1);
    assert(d1.drop_last() =~= Seq::empty());
    assert(text::digits_value(d1.drop_last()) == 0);
    assert(d1.last() == '6');
    assert(text::digits_value(d1) == 6);
    assert(text::digits_value(d2) == 60);
    assert(text::digits_value(d3) == 604);
    assert(text::digits_value(d4) == 6048);
    assert(text::digits_value(d5) == 60480);
    assert(text::digits_value(d6) == 604800);
    assert(text::digits_value(d7) == 6048000);
    assert(text::digits_value(d8) == 60480000);
    assert(text::digits_value(d9) == 604800000);
}

/// The default for keeping records, out of the table.
pub fn default_retention_ms() -> (ms: u64)
    ensures
        ms == SEVEN_DAYS_MS,
        named(table(), "retention.ms"@, 0) matches Some(e) && e.default == Some("604800000"@),
        text::decimal("604800000"@) == Some(ms as int),
{
    proof {
        lemma_retention_default();
        assert(named(table(), "retention.ms"@, 0) == Some(table()[0]));
    }
    match lookup("retention.ms") {
        Some(e) => match e.default_value {
            Some(v) => match parse_decimal(v) {
                Some(n) => {
                    if n >= 0 {
                        n as u64
                    } else {
                        SEVEN_DAYS_MS
                    }
                },
                None => SEVEN_DAYS_MS,
            },
            None => SEVEN_DAYS_MS,
        },
        None => SEVEN_DAYS_MS,
    }
}

} // verus!

//! What declared topics and users come to, and how settings are read.

use vstd::prelude::*;
use vstd::utf8;
use crate::bootstrap;
use crate::bootstrap::DurationUnit;
use crate::hashing;
use crate::json_object::ConfigForm;
use crate::text;
use crate::topic_config_defaults;
use crate::topic_config_defaults::EntryRow;
use crate::topic_cr_writer;
use crate::topic_cr_writer::{ArgoCdConfig, ConfigOpKind, ConfigOpWithValue, TopicCall, TopicError};
use crate::topic_registry;
use crate::topic_registry::{Incarnation, RegistryModel, TopicMeta, TopicSeedEntry};
use crate::user_cr_writer;
use crate::user_cr_writer::UserError;

verus! {

// The registry.

/// A topic that is put in reads back under its name, and the others stay.
pub proof fn law_inserted_topic_reads_back(r: RegistryModel, m: TopicMeta, other: Seq<char>)
    requires
        other != m.name@,
    ensures
        r.inserted(m).topics.contains_key(m.name@),
        r.inserted(m).topics[m.name@] == m,
        r.inserted(m).topics.contains_key(other) == r.topics.contains_key(other),
        r.topics.contains_key(other) ==> r.inserted(m).topics[other] == r.topics[other],
        r.inserted(m).volumes == r.volumes,
        r.inserted(m).ids == r.ids,
{
}

/// The directories of a topic are replaced as a whole, and those of the other
/// topics stay.
pub proof fn law_directories_are_replaced(r: RegistryModel, topic: Seq<char>, dirs: Map<Seq<char>, Seq<char>>, p: int, other: Seq<char>)
    requires
        other != topic,
        dirs.dom().finite(),
    ensures
        ({
            let t = r.with_volumes(topic, dirs);
            &&& dirs.contains_key(text::int_text(p)) ==> t.volume(topic, p) == Some(dirs[text::int_text(p)])
            &&& !dirs.contains_key(text::int_text(p)) ==> t.volume(topic, p) is None
            &&& t.volume(other, p) == r.volume(other, p)
            &&& t.topics == r.topics && t.ids == r.ids
        }),
{
    if dirs.dom().len() == 0 {
        assert(dirs.dom() =~= Set::empty());
        assert(!dirs.contains_key(text::int_text(p)));
    }
}

/// An id reads back, and leaves the other topics as they were. A topic that was
/// never seen is pending once the topics were listed, and unknown before.
pub proof fn law_id_reads_back(r: RegistryModel, topic: Seq<char>, id: Seq<char>, other: Seq<char>)
    requires
        other != topic,
        id.len() > 0,
    ensures
        r.with_id(topic, Some(id)).incarnation(topic) == Incarnation::Known(id),
        r.with_id(topic, Some(Seq::empty())).incarnation(topic) == Incarnation::Pending,
        r.with_id(topic, None).incarnation(topic) == Incarnation::Pending,
        r.with_id(topic, Some(id)).incarnation(other) == r.incarnation(other),
        r.with_id(topic, Some(id)).topics == r.topics,
        r.with_id(topic, Some(id)).volumes == r.volumes,
        !r.ids.contains_key(topic) && r.synced ==> r.incarnation(topic) == Incarnation::Pending,
        !r.ids.contains_key(topic) && !r.synced ==> r.incarnation(topic) == Incarnation::Unknown,
        r.marked().synced && r.marked().ids == r.ids && r.marked().topics == r.topics && r.marked().volumes == r.volumes,
{
}

/// A seed is refused for its first entry without a partition, and for no other.
pub proof fn law_seed_is_refused_for_its_first_bad_entry(seed: Seq<TopicSeedEntry>, i: int, j: int)
    requires
        0 <= i <= seed.len(),
    ensures
        i <= j < seed.len() && seed[j].partitions <= 0 && (forall|n: int| i <= n < j ==> (#[trigger] seed[n]).partitions > 0)
            ==> topic_registry::first_invalid(seed, i) == Some(seed[j].name@),
        (forall|n: int| i <= n < seed.len() ==> (#[trigger] seed[n]).partitions > 0) ==> topic_registry::first_invalid(seed, i) is None,
    decreases seed.len() - i,
{
    if i < seed.len() {
        law_seed_is_refused_for_its_first_bad_entry(seed, i + 1, j);
        let here = seed[i];
    }
}

/// A seed gives the topics that it names and no others, each with the
/// partitions of its last entry and no id.
pub proof fn law_seed_gives_its_topics(seed: Seq<TopicSeedEntry>, topics: Map<Seq<char>, TopicMeta>, name: Seq<char>, j: int)
    requires
        topic_registry::seeded(seed, topics),
    ensures
        0 <= j < seed.len() && seed[j].name@ == name && (forall|n: int| j < n < seed.len() ==> (#[trigger] seed[n]).name@ != name) ==> {
            &&& topics.contains_key(name)
            &&& topics[name].name@ == name
            &&& topics[name].partition_count == seed[j].partitions
            &&& forall|b: int| 0 <= b < 16 ==> #[trigger] topics[name].topic_id@[b] == 0
        },
        (forall|n: int| 0 <= n < seed.len() ==> (#[trigger] seed[n]).name@ != name) ==> !topics.contains_key(name),
    decreases seed.len(),
{
    if seed.len() > 0 {
        let d = seed.drop_last();
        let last = seed.len() - 1;
        let (before, m) = choose|before: Map<Seq<char>, TopicMeta>, m: TopicMeta|
            #![trigger before.insert(seed.last().name@, m)]
            topic_registry::seeded(d, before) && topic_registry::seed_meta(seed.last(), m) && topics == before.insert(seed.last().name@, m);
        law_seed_gives_its_topics(d, before, name, j);
        assert(seed[last] == seed.last());
        assert forall|n: int| 0 <= n < d.len() implies #[trigger] d[n] == seed[n] by {
        }
        if 0 <= j < last && seed[j].name@ == name && (forall|n: int| j < n < seed.len() ==> (#[trigger] seed[n]).name@ != name) {
            assert(seed[last].name@ != name);
            assert forall|n: int| j < n < d.len() implies (#[trigger] d[n]).name@ != name by {
                assert(d[n] == seed[n]);
            }
        }
        if forall|n: int| 0 <= n < seed.len() ==> (#[trigger] seed[n]).name@ != name {
            assert(seed[last].name@ != name);
            assert forall|n: int| 0 <= n < d.len() implies (#[trigger] d[n]).name@ != name by {
                assert(d[n] == seed[n]);
            }
        }
    }
}

// Settings.

/// The settings that there are, by their name on the wire and by their field,
/// and the field of each.
pub proof fn law_settings_have_their_fields(key: Seq<char>)
    ensures
        key == "retention.ms"@ || key == "retentionMs"@ ==> topic_cr_writer::field_of(key) == Some("retentionMs"@),
        key == "segment.ms"@ || key == "segmentMs"@ ==> topic_cr_writer::field_of(key) == Some("segmentMs"@),
        key == "retention.bytes"@ || key == "retentionBytes"@ ==> topic_cr_writer::field_of(key) == Some("retentionBytes"@),
        key == "segment.bytes"@ || key == "segmentBytes"@ ==> topic_cr_writer::field_of(key) == Some("segmentBytes"@),
        key == "cleanup.policy"@ || key == "cleanupPolicy"@ ==> topic_cr_writer::field_of(key) == Some("cleanupPolicy"@),
        key == "min.compaction.lag.ms"@ || key == "minCompactionLagMs"@ ==> topic_cr_writer::field_of(key) == Some("minCompactionLagMs"@),
        key == "delete.retention.ms"@ || key == "deleteRetentionMs"@ ==> topic_cr_writer::field_of(key) == Some("deleteRetentionMs"@),
        key == "flush.messages"@ || key == "flushMessages"@ ==> topic_cr_writer::field_of(key) == Some("flushMessages"@),
        topic_cr_writer::field_of(key) matches Some(f) ==> topic_cr_writer::field_of(f) == Some(f),
{
    reveal_strlit("retention.ms");
    reveal_strlit("retentionMs");
    reveal_strlit("segment.ms");
    reveal_strlit("segmentMs");
    reveal_strlit("retention.bytes");
    reveal_strlit("retentionBytes");
    reveal_strlit("segment.bytes");
    reveal_strlit("segmentBytes");
    reveal_strlit("cleanup.policy");
    reveal_strlit("cleanupPolicy");
    reveal_strlit("min.compaction.lag.ms");
    reveal_strlit("minCompactionLagMs");
    reveal_strlit("delete.retention.ms");
    reveal_strlit("deleteRetentionMs");
    reveal_strlit("flush.messages");
    reveal_strlit("flushMessages");
    assert("retention.ms"@.len() == 12);
    assert("retentionMs"@.len() == 11);
    assert("segment.ms"@.len() == 10);
    assert("segmentMs"@.len() == 9);
    assert("retention.bytes"@.len() == 15);
    assert("retentionBytes"@.len() == 14);
    assert("segment.bytes"@.len() == 13);
    assert("segmentBytes"@.len() == 12);
    assert("cleanup.policy"@.len() == 14);
    assert("cleanupPolicy"@.len() == 13);
    assert("min.compaction.lag.ms"@.len() == 21);
    assert("minCompactionLagMs"@.len() == 18);
    assert("delete.retention.ms"@.len() == 19);
    assert("deleteRetentionMs"@.len() == 17);
    assert("flush.messages"@.len() == 14);
    assert("flushMessages"@.len() == 13);
    // Texts of one length differ in some letter.
    assert("retentionMs"@[0] != "segmentMs"@[0]);
    assert("segment.ms"@[7] != "segmentMs"@[7]);
    assert("retention.bytes"@[0] != "delete.retention.ms"@[0]);
    assert("segment.bytes"@[0] != "cleanupPolicy"@[0]);
    assert("segment.bytes"@[0] != "flushMessages"@[0]);
    assert("cleanupPolicy"@[0] != "flushMessages"@[0]);
    assert("retention.ms"@[0] != "segmentBytes"@[0]);
    assert("cleanup.policy"@[0] != "retentionBytes"@[0]);
    assert("cleanup.policy"@[0] != "flush.messages"@[0]);
    assert("retentionBytes"@[0] != "flush.messages"@[0]);
}

/// A cleanup policy is one of three texts and is kept as it is; every other
/// setting is a number that fits, and is kept as that number. A setting that is
/// not known has no value.
pub proof fn law_values_of_settings(key: Seq<char>, n: int, value: Seq<char>)
    requires
        i64::MIN <= n <= i64::MAX,
    ensures
        ({
            let policy = key == "cleanup.policy"@ || key == "cleanupPolicy"@;
            let three = value == "delete"@ || value == "compact"@ || value == "compact,delete"@;
            let known = topic_cr_writer::field_of(key) is Some;
            &&& known && !policy ==> topic_cr_writer::value_of(key, text::int_text(n)) == Ok::<ConfigForm, TopicError>(ConfigForm::Number(n as i64))
            &&& known && !policy && text::decimal(value) is None ==> topic_cr_writer::value_of(key, value) is Err
            &&& policy && three ==> topic_cr_writer::value_of(key, value) == Ok::<ConfigForm, TopicError>(ConfigForm::Text(value))
            &&& policy && !three ==> topic_cr_writer::value_of(key, value) is Err
            &&& !known ==> topic_cr_writer::value_of(key, value) == Err::<ConfigForm, TopicError>(
                TopicError::InvalidConfig("unknown config key: "@ + key),
            )
        }),
{
    law_settings_have_their_fields(key);
    text::lemma_int_text(n);
}

/// A change that sets a value patches the field of its key with it; one that
/// sets nothing, or deletes, patches it with null; lists cannot be changed here.
pub proof fn law_changes_of_settings(op: ConfigOpWithValue)
    ensures
        op.kind == ConfigOpKind::Append || op.kind == ConfigOpKind::Subtract ==> topic_cr_writer::change_of(op) == Err::<(Seq<char>, ConfigForm), TopicError>(
            TopicError::UnsupportedOp(op.kind),
        ),
        topic_cr_writer::field_of(op.key@) matches Some(f) ==> {
            &&& op.kind == ConfigOpKind::Delete ==> topic_cr_writer::change_of(op) == Ok::<(Seq<char>, ConfigForm), TopicError>((f, ConfigForm::Null))
            &&& op.kind == ConfigOpKind::SetTo && op.value is None ==> topic_cr_writer::change_of(op) == Ok::<(Seq<char>, ConfigForm), TopicError>(
                (f, ConfigForm::Null),
            )
            &&& (op.kind == ConfigOpKind::SetTo && op.value is Some ==> match topic_cr_writer::value_of(op.key@, op.value->0@) {
                Ok(v) => topic_cr_writer::change_of(op) == Ok::<(Seq<char>, ConfigForm), TopicError>((f, v)),
                Err(e) => topic_cr_writer::change_of(op) == Err::<(Seq<char>, ConfigForm), TopicError>(e),
            })
        },
        topic_cr_writer::field_of(op.key@) is None && (op.kind == ConfigOpKind::SetTo || op.kind == ConfigOpKind::Delete)
            ==> topic_cr_writer::change_of(op) == Err::<(Seq<char>, ConfigForm), TopicError>(
            TopicError::InvalidConfig("unknown config key: "@ + op.key@),
        ),
{
}

/// A list of changes patches the field of each with what the last change to it
/// gives. It is refused where one of them is, for the first that is.
pub proof fn law_patch_holds_the_last_change(ops: Seq<ConfigOpWithValue>, j: int)
    requires
        0 <= j < ops.len(),
    ensures
        topic_cr_writer::patch_of(Seq::empty()) == Ok::<Map<Seq<char>, ConfigForm>, TopicError>(Map::empty()),
        topic_cr_writer::change_of(ops[j]) is Err && (forall|n: int| 0 <= n < j ==> topic_cr_writer::change_of(#[trigger] ops[n]) is Ok)
            ==> topic_cr_writer::patch_of(ops) == Err::<Map<Seq<char>, ConfigForm>, TopicError>(topic_cr_writer::change_of(ops[j])->Err_0),
        (forall|n: int| 0 <= n < ops.len() ==> topic_cr_writer::change_of(#[trigger] ops[n]) is Ok) ==> {
            let f = topic_cr_writer::change_of(ops[j])->Ok_0.0;
            &&& topic_cr_writer::patch_of(ops) is Ok
            &&& topic_cr_writer::patch_of(ops)->Ok_0.contains_key(f)
            &&& (forall|n: int| j < n < ops.len() ==> topic_cr_writer::change_of(#[trigger] ops[n])->Ok_0.0 != f) ==> topic_cr_writer::patch_of(ops)->Ok_0[f]
                == topic_cr_writer::change_of(ops[j])->Ok_0.1
        },
    decreases ops.len(),
{
    let d = ops.drop_last();
    let last = ops.len() - 1;
    assert forall|n: int| 0 <= n < d.len() implies #[trigger] d[n] == ops[n] by {
    }
    assert(ops[last] == ops.last());
    if j < last {
        law_patch_holds_the_last_change(d, j);
        assert(d[j] == ops[j]);
        if forall|n: int| 0 <= n < ops.len() ==> topic_cr_writer::change_of(#[trigger] ops[n]) is Ok {
            assert forall|n: int| 0 <= n < d.len() implies topic_cr_writer::change_of(#[trigger] d[n]) is Ok by {
                assert(d[n] == ops[n]);
            }
            let f = topic_cr_writer::change_of(ops[j])->Ok_0.0;
            if forall|n: int| j < n < ops.len() ==> topic_cr_writer::change_of(#[trigger] ops[n])->Ok_0.0 != f {
                assert(topic_cr_writer::change_of(ops[last])->Ok_0.0 != f);
                assert forall|n: int| j < n < d.len() implies topic_cr_writer::change_of(#[trigger] d[n])->Ok_0.0 != f by {
                    assert(d[n] == ops[n]);
                }
            }
        }
        if forall|n: int| 0 <= n < j ==> topic_cr_writer::change_of(#[trigger] ops[n]) is Ok {
            assert forall|n: int| 0 <= n < j implies topic_cr_writer::change_of(#[trigger] d[n]) is Ok by {
                assert(d[n] == ops[n]);
            }
        }
    } else {
        if forall|n: int| 0 <= n < j ==> topic_cr_writer::change_of(#[trigger] ops[n]) is Ok {
            assert forall|n: int| 0 <= n < d.len() implies topic_cr_writer::change_of(#[trigger] d[n]) is Ok by {
                assert(d[n] == ops[n]);
            }
            if d.len() > 0 {
                law_patch_holds_the_last_change(d, 0);
            }
        }
    }
}

/// Settings are looked up by name: the first row of that name, or none.
pub proof fn law_setting_is_looked_up(rows: Seq<EntryRow>, name: Seq<char>, i: int, j: int)
    requires
        0 <= i <= rows.len(),
    ensures
        i <= j < rows.len() && rows[j].name == name && (forall|n: int| i <= n < j ==> (#[trigger] rows[n]).name != name)
            ==> topic_config_defaults::named(rows, name, i) == Some(rows[j]),
        (forall|n: int| i <= n < rows.len() ==> (#[trigger] rows[n]).name != name) ==> topic_config_defaults::named(rows, name, i) is None,
    decreases rows.len() - i,
{
    if i < rows.len() {
        law_setting_is_looked_up(rows, name, i + 1, j);
        let here = rows[i];
    }
}

/// The settings that are described, with their defaults and their types.
pub proof fn law_described_settings()
    ensures
        ({
            let t = topic_config_defaults::table();
            &&& t.len() == 7
            &&& t[0].name == "retention.ms"@ && t[0].default == Some("604800000"@) && t[0].kind == 5
            &&& t[1].name == "retention.bytes"@ && t[1].default == Some("-1"@) && t[1].kind == 5
            &&& t[2].name == "segment.bytes"@ && t[2].default == Some("1073741824"@) && t[2].kind == 3
            &&& t[3].name == "segment.ms"@ && t[3].default == Some("604800000"@) && t[3].kind == 5
            &&& t[4].name == "cleanup.policy"@ && t[4].default == Some("delete"@) && t[4].kind == 7
            &&& t[5].name == "min.compaction.lag.ms"@ && t[5].default == Some("0"@) && t[5].kind == 5
            &&& t[6].name == "delete.retention.ms"@ && t[6].default == Some("86400000"@) && t[6].kind == 5
        }),
{
}

// Names of resources.

/// A topic whose name is at most 253 bytes of lower-case letters, digits and,
/// between two of those, hyphens and dots, has its resource named after it. Any
/// other has a made name, and the resource carries the name of the topic.
pub proof fn law_resource_of_a_topic(topic: Seq<char>)
    ensures
        ({
            let plain = topic.len() > 0 && utf8::encode_utf8(topic).len() <= 253 && forall|i: int| 0 <= i < topic.len() ==> #[trigger] fits_name(topic, i);
            &&& plain ==> topic_cr_writer::cr_name(topic).0 == topic && topic_cr_writer::cr_name(topic).1.len() == 0
            &&& !plain ==> topic_cr_writer::cr_name(topic).1 == topic && topic_cr_writer::cr_name(topic).0 == "kaas-topic-"@
                + topic_cr_writer::hex_text(hashing::sha1(utf8::encode_utf8(topic)).take(8))
        }),
{
    assert forall|i: int| 0 <= i < topic.len() implies fits_name(topic, i) == #[trigger] topic_cr_writer::subdomain_char(topic, i) by {
    }
    if forall|i: int| 0 <= i < topic.len() ==> #[trigger] fits_name(topic, i) {
        assert forall|i: int| 0 <= i < topic.len() implies #[trigger] topic_cr_writer::subdomain_char(topic, i) by {
            assert(fits_name(topic, i));
        }
    }
    if forall|i: int| 0 <= i < topic.len() ==> #[trigger] topic_cr_writer::subdomain_char(topic, i) {
        assert forall|i: int| 0 <= i < topic.len() implies #[trigger] fits_name(topic, i) by {
            assert(topic_cr_writer::subdomain_char(topic, i));
        }
    }
}

/// Whether a character may stand where it does in the name of a resource.
pub open spec fn fits_name(s: Seq<char>, i: int) -> bool {
    ('a' <= s[i] && s[i] <= 'z') || ('0' <= s[i] && s[i] <= '9') || ((s[i] == '-' || s[i] == '.') && 0 < i < s.len() - 1 && s[i - 1] != '.' && s[i + 1]
        != '.')
}

/// Bytes are written as two hexadecimal digits each, the high one first, with
/// small letters.
pub proof fn law_hexadecimal(d: Seq<u8>, b: u8)
    ensures
        topic_cr_writer::hex_text(Seq::empty()).len() == 0,
        ({
            let t = topic_cr_writer::hex_text(d.push(b));
            let n = topic_cr_writer::hex_text(d).len() as int;
            let high = b as int / 16;
            let low = b as int % 16;
            &&& t.len() == n + 2
            &&& t.take(n) == topic_cr_writer::hex_text(d)
            &&& high < 10 ==> t[n] as int == '0' as int + high
            &&& high >= 10 ==> t[n] as int == 'a' as int + high - 10
            &&& low < 10 ==> t[n + 1] as int == '0' as int + low
            &&& low >= 10 ==> t[n + 1] as int == 'a' as int + low - 10
        }),
{
    assert(d.push(b).drop_last() =~= d);
    let n = topic_cr_writer::hex_text(d).len() as int;
    assert(topic_cr_writer::hex_text(d.push(b)).take(n) =~= topic_cr_writer::hex_text(d));
}

/// A resource is marked where marks are switched on: with the application and
/// the resource, and with the options as they are set.
pub proof fn law_marks_of_a_resource(c: ArgoCdConfig, group: Seq<char>, kind: Seq<char>, namespace: Seq<char>, name: Seq<char>)
    ensures
        !c.enabled ==> topic_cr_writer::marks(c, group, kind, namespace, name) is None,
        c.enabled ==> (topic_cr_writer::marks(c, group, kind, namespace, name) matches Some(m) && m.dom() == set![
            "argocd.argoproj.io/tracking-id"@,
            "argocd.argoproj.io/compare-options"@,
            "argocd.argoproj.io/sync-options"@,
        ] && m["argocd.argoproj.io/tracking-id"@] == c.application_name@ + ":"@ + group + "/"@ + kind + ":"@ + namespace + "/"@ + name
            && m["argocd.argoproj.io/compare-options"@] == c.compare_options@ && m["argocd.argoproj.io/sync-options"@] == c.sync_options@),
{
    reveal_strlit("argocd.argoproj.io/tracking-id");
    reveal_strlit("argocd.argoproj.io/compare-options");
    reveal_strlit("argocd.argoproj.io/sync-options");
    assert("argocd.argoproj.io/tracking-id"@.len() == 30);
    assert("argocd.argoproj.io/compare-options"@.len() == 34);
    assert("argocd.argoproj.io/sync-options"@.len() == 31);
    if c.enabled {
        let m = topic_cr_writer::marks(c, group, kind, namespace, name)->0;
        assert(m.dom() =~= set![
            "argocd.argoproj.io/tracking-id"@,
            "argocd.argoproj.io/compare-options"@,
            "argocd.argoproj.io/sync-options"@,
        ]);
    }
}

/// What a refusal of the server means for a topic.
pub proof fn law_refusals_of_topics(call: TopicCall, name: Seq<char>, code: u16, message: Seq<char>, shown: Seq<char>)
    ensures
        code == 403 ==> topic_cr_writer::write_error(call, name, Some(code), message, shown) == TopicError::Forbidden(message),
        code == 404 && call == TopicCall::Named ==> topic_cr_writer::write_error(call, name, Some(code), message, shown) == TopicError::NotFound(name),
        code == 404 && call != TopicCall::Named ==> topic_cr_writer::write_error(call, name, Some(code), message, shown) == TopicError::NotFound(message),
        code == 409 && call == TopicCall::Create ==> topic_cr_writer::write_error(call, name, Some(code), message, shown) == TopicError::AlreadyExists(name),
        code == 409 && call != TopicCall::Create ==> topic_cr_writer::write_error(call, name, Some(code), message, shown) == TopicError::Other(shown),
        code != 403 && code != 404 && code != 409 ==> topic_cr_writer::write_error(call, name, Some(code), message, shown) == TopicError::Other(shown),
        topic_cr_writer::write_error(call, name, None, message, shown) == TopicError::Other(shown),
{
}

// Users.

/// A credential is rotated for users that authenticate by SCRAM, which is also
/// what an empty type means, and refused for all others.
pub proof fn law_credentials_are_for_scram_users(username: Seq<char>, kind: Seq<char>)
    ensures
        kind == "scram-sha-512"@ || kind.len() == 0 ==> user_cr_writer::refusal(username, Some(kind)) is None,
        kind != "scram-sha-512"@ && kind.len() > 0 ==> (user_cr_writer::refusal(username, Some(kind)) matches Some(e) && e is InvalidTarget),
        user_cr_writer::refusal(username, None) matches Some(e) && e is InvalidTarget,
{
}

/// What a refusal of the server means for a user.
pub proof fn law_refusals_of_users(username: Seq<char>, code: u16, message: Seq<char>, shown: Seq<char>)
    ensures
        code == 404 ==> user_cr_writer::write_error(username, Some(code), message, shown) == UserError::NotFound(username),
        code == 403 ==> user_cr_writer::write_error(username, Some(code), message, shown) == UserError::Forbidden(message),
        code != 404 && code != 403 ==> user_cr_writer::write_error(username, Some(code), message, shown) == UserError::Other(shown),
        user_cr_writer::write_error(username, None, message, shown) == UserError::Other(shown),
{
}

// Start-up.

/// An endpoint without a scheme gets plain HTTP; one that speaks gRPC gets it
/// in place of that; any other is kept.
pub proof fn law_endpoint_scheme(s: Seq<char>, i: int)
    ensures
        (forall|j: int| #![trigger text::stands_at(s, "://"@, j)] 0 <= j ==> !text::stands_at(s, "://"@, j)) ==> bootstrap::with_scheme(s) == "http://"@
            + s,
        text::stands_at(s, "://"@, i) && (forall|j: int| #![trigger text::stands_at(s, "grpc://"@, j)] 0 <= j ==> !text::stands_at(s, "grpc://"@, j))
            ==> bootstrap::with_scheme(s) == s,
        bootstrap::with_scheme("grpc://"@ + s) == "http://"@ + s,
{
    text::lemma_first_place(s, "://"@, 0);
    text::lemma_first_place(s, "grpc://"@, 0);
    reveal_strlit("://");
    reveal_strlit("grpc://");
    reveal_strlit("http://");
    let t = "grpc://"@ + s;
    text::lemma_first_place(t, "://"@, 0);
    text::lemma_first_place(t, "grpc://"@, 0);
    assert(t.subrange(4, 7) =~= "://"@);
    assert(text::stands_at(t, "://"@, 4));
    assert(t.subrange(0, 7) =~= "grpc://"@);
    assert(text::stands_at(t, "grpc://"@, 0));
    assert(t.take(0) + "http://"@ + t.skip(7) =~= "http://"@ + s);
}

/// The units of a duration; without one it is in seconds.
pub proof fn law_units(s: Seq<char>)
    ensures
        s == "ns"@ ==> bootstrap::unit_named(s) == Some(DurationUnit::Nanoseconds),
        s == "us"@ ==> bootstrap::unit_named(s) == Some(DurationUnit::Microseconds),
        s == "ms"@ ==> bootstrap::unit_named(s) == Some(DurationUnit::Milliseconds),
        s == "s"@ || s.len() == 0 ==> bootstrap::unit_named(s) == Some(DurationUnit::Seconds),
        s == "m"@ ==> bootstrap::unit_named(s) == Some(DurationUnit::Minutes),
        s == "h"@ ==> bootstrap::unit_named(s) == Some(DurationUnit::Hours),
        s.len() > 2 ==> bootstrap::unit_named(s) is None,
{
    reveal_strlit("ns");
    reveal_strlit("us");
    reveal_strlit("µs");
    reveal_strlit("ms");
    reveal_strlit("s");
    reveal_strlit("m");
    reveal_strlit("h");
    assert("ns"@[0] != "us"@[0] && "ns"@[0] != "ms"@[0] && "us"@[0] != "ms"@[0] && "s"@[0] != "m"@[0] && "s"@[0] != "h"@[0] && "m"@[0] != "h"@[0]);
    assert("µs"@[0] != "ms"@[0] && "µs"@[0] != "ns"@[0]);
}

/// The number of a duration is the longest beginning of digits, dots and signs.
pub proof fn law_number_of_a_duration(s: Seq<char>, i: int)
    requires
        0 <= i <= s.len(),
    ensures
        ({
            let n = bootstrap::number_len(s, i);
            &&& i <= n <= s.len()
            &&& forall|j: int| i <= j < n ==> ('0' <= #[trigger] s[j] && s[j] <= '9') || s[j] == '.' || s[j] == '-' || s[j] == '+'
            &&& n < s.len() ==> !(('0' <= s[n] && s[n] <= '9') || s[n] == '.' || s[n] == '-' || s[n] == '+')
        }),
    decreases s.len() - i,
{
    if i < s.len() && bootstrap::in_number(s[i]) {
        law_number_of_a_duration(s, i + 1);
    }
}

/// Everything is exported under the name of the service, and under the version,
/// the pod and the namespace where they are known.
pub proof fn law_attributes(service: Seq<char>, version: Seq<char>, pod: Seq<char>, namespace: Seq<char>)
    requires
        version.len() > 0,
        pod.len() > 0,
        namespace.len() > 0,
    ensures
        bootstrap::attributes(service, Some(version), Some(pod), Some(namespace)) == seq![
            ("service.name"@, service),
            ("service.version"@, version),
            ("k8s.pod.name"@, pod),
            ("service.instance.id"@, pod),
            ("k8s.namespace.name"@, namespace),
        ],
        bootstrap::attributes(service, None, None, None) == seq![("service.name"@, service)],
        bootstrap::attributes(service, Some(version), None, None) == seq![("service.name"@, service), ("service.version"@, version)],
        bootstrap::attributes(service, None, Some(pod), None) == seq![
            ("service.name"@, service),
            ("k8s.pod.name"@, pod),
            ("service.instance.id"@, pod),
        ],
        bootstrap::attributes(service, None, None, Some(namespace)) == seq![("service.name"@, service), ("k8s.namespace.name"@, namespace)],
{
    assert(bootstrap::attributes(service, Some(version), Some(pod), Some(namespace)) =~= seq![
        ("service.name"@, service),
        ("service.version"@, version),
        ("k8s.pod.name"@, pod),
        ("service.instance.id"@, pod),
        ("k8s.namespace.name"@, namespace),
    ]);
    assert(bootstrap::attributes(service, None, None, None) =~= seq![("service.name"@, service)]);
    assert(bootstrap::attributes(service, Some(version), None, None) =~= seq![("service.name"@, service), ("service.version"@, version)]);
    assert(bootstrap::attributes(service, None, Some(pod), None) =~= seq![
        ("service.name"@, service),
        ("k8s.pod.name"@, pod),
        ("service.instance.id"@, pod),
    ]);
    assert(bootstrap::attributes(service, None, None, Some(namespace)) =~= seq![("service.name"@, service), ("k8s.namespace.name"@, namespace)]);
}

} // verus!

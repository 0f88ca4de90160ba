//! Changes to declared topics: creating and deleting them, adding partitions,
//! changing settings.
//!
//! A setting has a dotted name on the wire and a field in the declaration. A
//! name that is not known, or a value that does not fit, is refused here,
//! since a field that the declaration does not have would be dropped without a
//! word.

use vstd::prelude::*;
use vstd::utf8;
use crate::hashing;
use crate::hashing::sha1_digest;
use crate::json_object;
use crate::json_object::{object_insert, object_new, ConfigForm, ConfigValue};
use crate::keyed::TextMap;
use crate::text;
use crate::text::{chars_of, int_string, joined3, parse_decimal, quoted_string, text_eq};

verus! {

/// One change to a setting.
#[derive(Debug, Clone, PartialEq, Eq)]
pub struct ConfigOp {
    pub key: String,
    pub kind: ConfigOpKind,
}

#[derive(Debug, Clone, Copy, PartialEq, Eq, Structural)]
pub enum ConfigOpKind {
    SetTo,
    Delete,
    /// For lists, of which there are none here.
    Append,
    /// For lists, of which there are none here.
    Subtract,
}

impl ConfigOp {
    /// A change that sets a key. The value travels beside it.
    pub fn set(key: String, _value: String) -> (op: ConfigOp)
        ensures
            op.key == key,
            op.kind == ConfigOpKind::SetTo,
    {
        ConfigOp { key, kind: ConfigOpKind::SetTo }
    }

    pub fn delete(key: String) -> (op: ConfigOp)
        ensures
            op.key == key,
            op.kind == ConfigOpKind::Delete,
    {
        ConfigOp { key, kind: ConfigOpKind::Delete }
    }
}

/// A change with its value.
#[derive(Debug, Clone, PartialEq, Eq)]
pub struct ConfigOpWithValue {
    pub key: String,
    pub kind: ConfigOpKind,
    /// None for null on the wire.
    pub value: Option<String>,
}

#[derive(Debug, Clone, PartialEq, Eq)]
pub enum TopicWriteError {
    NotFound(String),
    Forbidden(String),
    UnsupportedOp(ConfigOpKind),
    InvalidConfig(String),
    InvalidPartitions(String),
    AlreadyExists(String),
    Other(String),
}

#[verifier::ext_equal]
pub enum TopicError {
    NotFound(Seq<char>),
    Forbidden(Seq<char>),
    UnsupportedOp(ConfigOpKind),
    InvalidConfig(Seq<char>),
    InvalidPartitions(Seq<char>),
    AlreadyExists(Seq<char>),
    Other(Seq<char>),
}

impl View for TopicWriteError {
    type V = TopicError;

    open spec fn view(&self) -> TopicError {
        match self {
            TopicWriteError::NotFound(s) => TopicError::NotFound(s@),
            TopicWriteError::Forbidden(s) => TopicError::Forbidden(s@),
            TopicWriteError::UnsupportedOp(k) => TopicError::UnsupportedOp(*k),
            TopicWriteError::InvalidConfig(s) => TopicError::InvalidConfig(s@),
            TopicWriteError::InvalidPartitions(s) => TopicError::InvalidPartitions(s@),
            TopicWriteError::AlreadyExists(s) => TopicError::AlreadyExists(s@),
            TopicWriteError::Other(s) => TopicError::Other(s@),
        }
    }
}

pub open spec fn kind_name(kind: ConfigOpKind) -> Seq<char> {
    match kind {
        ConfigOpKind::SetTo => "Set"@,
        ConfigOpKind::Delete => "Delete"@,
        ConfigOpKind::Append => "Append"@,
        ConfigOpKind::Subtract => "Subtract"@,
    }
}

impl TopicWriteError {
    /// The error in words.
    pub fn message(&self) -> (s: String)
        ensures
            s@ == (match self@ {
                TopicError::NotFound(m) => "topic not found: "@ + m,
                TopicError::Forbidden(m) => "forbidden: "@ + m,
                TopicError::UnsupportedOp(k) => "unsupported config op: "@ + kind_name(k),
                TopicError::InvalidConfig(m) => "invalid config: "@ + m,
                TopicError::InvalidPartitions(m) => "invalid partitions: "@ + m,
                TopicError::AlreadyExists(m) => "topic already exists: "@ + m,
                TopicError::Other(m) => "other: "@ + m,
            }),
    {
        let (head, tail): (&str, &str) = match self {
            TopicWriteError::NotFound(m) => ("topic not found: ", m.as_str()),
            TopicWriteError::Forbidden(m) => ("forbidden: ", m.as_str()),
            TopicWriteError::UnsupportedOp(k) => (
                "unsupported config op: ",
                match k {
                    ConfigOpKind::SetTo => "Set",
                    ConfigOpKind::Delete => "Delete",
                    ConfigOpKind::Append => "Append",
                    ConfigOpKind::Subtract => "Subtract",
                },
            ),
            TopicWriteError::InvalidConfig(m) => ("invalid config: ", m.as_str()),
            TopicWriteError::InvalidPartitions(m) => ("invalid partitions: ", m.as_str()),
            TopicWriteError::AlreadyExists(m) => ("topic already exists: ", m.as_str()),
            TopicWriteError::Other(m) => ("other: ", m.as_str()),
        };
        let mut s = head.to_owned();
        s.push_str(tail);
        s
    }
}

/// Writes declared topics.
pub trait TopicCRWriter {
    fn create_topic(&self, name: &str, num_partitions: i32, configs: &[(String, String)]) -> Result<(), TopicWriteError>;

    fn expand_topic(&self, name: &str, new_count: i32) -> Result<(), TopicWriteError>;

    fn update_topic_config(&self, name: &str, ops: &[ConfigOpWithValue]) -> Result<(), TopicWriteError>;

    fn delete_topic(&self, name: &str) -> Result<(), TopicWriteError>;

    fn set_partition_log_dir(&self, name: &str, partition: i32, log_dir: &str) -> Result<(), TopicWriteError>;
}

/// A writer for a broker that runs on its own: it refuses everything.
#[derive(Debug, Clone, Copy)]
pub struct NoopTopicCRWriter;

impl Default for NoopTopicCRWriter {
    fn default() -> (r: Self)
        ensures
            r == NoopTopicCRWriter,
    {
        NoopTopicCRWriter
    }
}

pub open spec fn no_cluster() -> TopicError {
    TopicError::Forbidden("broker is not running in cluster mode"@)
}

fn refused() -> (r: Result<(), TopicWriteError>)
    ensures
        r matches Err(e) && e@ == no_cluster(),
{
    Err(TopicWriteError::Forbidden("broker is not running in cluster mode".to_owned()))
}

impl TopicCRWriter for NoopTopicCRWriter {
    fn create_topic(&self, _name: &str, _num_partitions: i32, _configs: &[(String, String)]) -> (r: Result<(), TopicWriteError>)
        ensures
            r matches Err(e) && e@ == no_cluster(),
    {
        refused()
    }

    fn expand_topic(&self, _name: &str, _new_count: i32) -> (r: Result<(), TopicWriteError>)
        ensures
            r matches Err(e) && e@ == no_cluster(),
    {
        refused()
    }

    fn update_topic_config(&self, _name: &str, _ops: &[ConfigOpWithValue]) -> (r: Result<(), TopicWriteError>)
        ensures
            r matches Err(e) && e@ == no_cluster(),
    {
        refused()
    }

    fn delete_topic(&self, _name: &str) -> (r: Result<(), TopicWriteError>)
        ensures
            r matches Err(e) && e@ == no_cluster(),
    {
        refused()
    }

    fn set_partition_log_dir(&self, _name: &str, _partition: i32, _log_dir: &str) -> (r: Result<(), TopicWriteError>)
        ensures
            r matches Err(e) && e@ == no_cluster(),
    {
        refused()
    }
}

/// The field of the declaration for a setting, which may be named as on the
/// wire or by its field.
pub open spec fn field_of(key: Seq<char>) -> Option<Seq<char>> {
    if key == "retention.ms"@ || key == "retentionMs"@ {
        Some("retentionMs"@)
    } else if key == "segment.ms"@ || key == "segmentMs"@ {
        Some("segmentMs"@)
    } else if key == "retention.bytes"@ || key == "retentionBytes"@ {
        Some("retentionBytes"@)
    } else if key == "segment.bytes"@ || key == "segmentBytes"@ {
        Some("segmentBytes"@)
    } else if key == "cleanup.policy"@ || key == "cleanupPolicy"@ {
        Some("cleanupPolicy"@)
    } else if key == "min.compaction.lag.ms"@ || key == "minCompactionLagMs"@ {
        Some("minCompactionLagMs"@)
    } else if key == "delete.retention.ms"@ || key == "deleteRetentionMs"@ {
        Some("deleteRetentionMs"@)
    } else if key == "flush.messages"@ || key == "flushMessages"@ {
        Some("flushMessages"@)
    } else {
        None
    }
}

/// The field for a setting; none for a setting that is not known.
pub fn config_key_to_json_field(key: &str) -> (r: Option<&'static str>)
    ensures
        match r {
            Some(f) => field_of(key@) == Some(f@),
            None => field_of(key@) is None,
        },
{
    if text_eq(key, "retention.ms") || text_eq(key, "retentionMs") {
        Some("retentionMs")
    } else if text_eq(key, "segment.ms") || text_eq(key, "segmentMs") {
        Some("segmentMs")
    } else if text_eq(key, "retention.bytes") || text_eq(key, "retentionBytes") {
        Some("retentionBytes")
    } else if text_eq(key, "segment.bytes") || text_eq(key, "segmentBytes") {
        Some("segmentBytes")
    } else if text_eq(key, "cleanup.policy") || text_eq(key, "cleanupPolicy") {
        Some("cleanupPolicy")
    } else if text_eq(key, "min.compaction.lag.ms") || text_eq(key, "minCompactionLagMs") {
        Some("minCompactionLagMs")
    } else if text_eq(key, "delete.retention.ms") || text_eq(key, "deleteRetentionMs") {
        Some("deleteRetentionMs")
    } else if text_eq(key, "flush.messages") || text_eq(key, "flushMessages") {
        Some("flushMessages")
    } else {
        None
    }
}

pub open spec fn unknown_key(key: Seq<char>) -> TopicError {
    TopicError::InvalidConfig("unknown config key: "@ + key)
}

fn unknown_key_error(key: &str) -> (e: TopicWriteError)
    ensures
        e@ == unknown_key(key@),
{
    let mut s = "unknown config key: ".to_owned();
    s.push_str(key);
    TopicWriteError::InvalidConfig(s)
}

pub open spec fn is_policy(value: Seq<char>) -> bool {
    value == "delete"@ || value == "compact"@ || value == "compact,delete"@
}

/// What a value of a setting stands for: one of three texts for the cleanup
/// policy, a number for every other setting that is known.
pub open spec fn value_of(key: Seq<char>, value: Seq<char>) -> Result<ConfigForm, TopicError> {
    if field_of(key) is None {
        Err(unknown_key(key))
    } else if key == "cleanup.policy"@ || key == "cleanupPolicy"@ {
        if is_policy(value) {
            Ok(ConfigForm::Text(value))
        } else {
            Err(TopicError::InvalidConfig(key + ": must be delete, compact, or compact,delete; got "@ + text::quoted(value)))
        }
    } else {
        match text::decimal_within(value, i64::MIN as int, i64::MAX as int) {
            Some(n) => Ok(ConfigForm::Number(n as i64)),
            None => Err(TopicError::InvalidConfig(key + ": not an integer: "@ + text::quoted(value))),
        }
    }
}

/// A value of a setting.
pub fn config_value_to_json(key: &str, value: &str) -> (r: Result<ConfigValue, TopicWriteError>)
    ensures
        match r {
            Ok(v) => value_of(key@, value@) == Ok::<ConfigForm, TopicError>(v@),
            Err(e) => value_of(key@, value@) == Err::<ConfigForm, TopicError>(e@),
        },
{
    if config_key_to_json_field(key).is_none() {
        return Err(unknown_key_error(key));
    }
    if text_eq(key, "cleanup.policy") || text_eq(key, "cleanupPolicy") {
        if text_eq(value, "delete") || text_eq(value, "compact") || text_eq(value, "compact,delete") {
            return Ok(ConfigValue::Text(value.to_owned()));
        }
        let q = quoted_string(value);
        let m = joined3(key, ": must be delete, compact, or compact,delete; got ", &q);
        return Err(TopicWriteError::InvalidConfig(m));
    }
    match parse_decimal(value) {
        Some(n) => Ok(ConfigValue::Number(n)),
        None => {
            let q = quoted_string(value);
            Err(TopicWriteError::InvalidConfig(joined3(key, ": not an integer: ", &q)))
        },
    }
}

/// The field and the value that a change gives it; null to take a setting
/// out.
pub open spec fn change_of(op: ConfigOpWithValue) -> Result<(Seq<char>, ConfigForm), TopicError> {
    match op.kind {
        ConfigOpKind::Append => Err(TopicError::UnsupportedOp(op.kind)),
        ConfigOpKind::Subtract => Err(TopicError::UnsupportedOp(op.kind)),
        ConfigOpKind::Delete => match field_of(op.key@) {
            Some(f) => Ok((f, ConfigForm::Null)),
            None => Err(unknown_key(op.key@)),
        },
        ConfigOpKind::SetTo => match field_of(op.key@) {
            Some(f) => match op.value {
                Some(v) => match value_of(op.key@, v@) {
                    Ok(w) => Ok((f, w)),
                    Err(e) => Err(e),
                },
                None => Ok((f, ConfigForm::Null)),
            },
            None => Err(unknown_key(op.key@)),
        },
    }
}

fn change(op: &ConfigOpWithValue) -> (r: Result<(&'static str, ConfigValue), TopicWriteError>)
    ensures
        match r {
            Ok(c) => change_of(*op) == Ok::<(Seq<char>, ConfigForm), TopicError>((c.0@, c.1@)),
            Err(e) => change_of(*op) == Err::<(Seq<char>, ConfigForm), TopicError>(e@),
        },
{
    match op.kind {
        ConfigOpKind::Append => Err(TopicWriteError::UnsupportedOp(op.kind)),
        ConfigOpKind::Subtract => Err(TopicWriteError::UnsupportedOp(op.kind)),
        ConfigOpKind::Delete => match config_key_to_json_field(&op.key) {
            Some(f) => Ok((f, ConfigValue::Null)),
            None => Err(unknown_key_error(&op.key)),
        },
        ConfigOpKind::SetTo => match config_key_to_json_field(&op.key) {
            Some(f) => match &op.value {
                Some(v) => match config_value_to_json(&op.key, v) {
                    Ok(w) => Ok((f, w)),
                    Err(e) => Err(e),
                },
                None => Ok((f, ConfigValue::Null)),
            },
            None => Err(unknown_key_error(&op.key)),
        },
    }
}

/// What a list of changes makes of the settings: the first change that is
/// refused refuses them all, and of two to one field the later counts.
pub open spec fn patch_of(ops: Seq<ConfigOpWithValue>) -> Result<Map<Seq<char>, ConfigForm>, TopicError>
    decreases ops.len(),
{
    if ops.len() == 0 {
        Ok(Map::empty())
    } else {
        match patch_of(ops.drop_last()) {
            Err(e) => Err(e),
            Ok(m) => match change_of(ops.last()) {
                Err(e) => Err(e),
                Ok(c) => Ok(m.insert(c.0, c.1)),
            },
        }
    }
}

proof fn lemma_patch_refused(ops: Seq<ConfigOpWithValue>, n: int)
    requires
        0 <= n <= ops.len(),
        patch_of(ops.take(n)) is Err,
    ensures
        patch_of(ops) == patch_of(ops.take(n)),
    decreases ops.len(),
{
    if n == ops.len() {
        assert(ops.take(n) =~= ops);
    } else {
        assert(ops.drop_last().take(n) =~= ops.take(n));
        lemma_patch_refused(ops.drop_last(), n);
    }
}

/// The settings that a list of changes patches.
pub fn ops_to_config_patch(ops: &[ConfigOpWithValue]) -> (r: Result<serde_json::Map<String, serde_json::Value>, TopicWriteError>)
    ensures
        match r {
            Ok(m) => patch_of(ops@) == Ok::<Map<Seq<char>, ConfigForm>, TopicError>(json_object::object_fields(m)),
            Err(e) => patch_of(ops@) == Err::<Map<Seq<char>, ConfigForm>, TopicError>(e@),
        },
{
    let mut out = object_new();
    assert(json_object::object_fields(out) =~= Map::empty());
    let mut i: usize = 0;
    while i < ops.len()
        invariant
            i <= ops@.len(),
            patch_of(ops@.take(i as int)) == Ok::<Map<Seq<char>, ConfigForm>, TopicError>(json_object::object_fields(out)),
        decreases ops.len() - i,
    {
        assert(ops@.take(i + 1).drop_last() =~= ops@.take(i as int));
        match change(&ops[i]) {
            Ok((f, v)) => {
                object_insert(&mut out, f, v);
            },
            Err(e) => {
                proof {
                    lemma_patch_refused(ops@, i + 1);
                }
                return Err(e);
            },
        }
        i = i + 1;
    }
    assert(ops@.take(i as int) =~= ops@);
    Ok(out)
}

/// What a list of settings and values makes of a new topic's settings.
pub open spec fn settings_of(configs: Seq<(String, String)>) -> Result<Map<Seq<char>, ConfigForm>, TopicError>
    decreases configs.len(),
{
    if configs.len() == 0 {
        Ok(Map::empty())
    } else {
        match settings_of(configs.drop_last()) {
            Err(e) => Err(e),
            Ok(m) => match (field_of(configs.last().0@), value_of(configs.last().0@, configs.last().1@)) {
                (Some(f), Ok(v)) => Ok(m.insert(f, v)),
                (Some(f), Err(e)) => Err(e),
                (None, _) => Err(unknown_key(configs.last().0@)),
            },
        }
    }
}

proof fn lemma_settings_refused(configs: Seq<(String, String)>, n: int)
    requires
        0 <= n <= configs.len(),
        settings_of(configs.take(n)) is Err,
    ensures
        settings_of(configs) == settings_of(configs.take(n)),
    decreases configs.len(),
{
    if n == configs.len() {
        assert(configs.take(n) =~= configs);
    } else {
        assert(configs.drop_last().take(n) =~= configs.take(n));
        lemma_settings_refused(configs.drop_last(), n);
    }
}

/// The settings of a new topic.
pub fn create_configs_to_spec(configs: &[(String, String)]) -> (r: Result<
    serde_json::Map<String, serde_json::Value>,
    TopicWriteError,
>)
    ensures
        match r {
            Ok(m) => settings_of(configs@) == Ok::<Map<Seq<char>, ConfigForm>, TopicError>(json_object::object_fields(m)),
            Err(e) => settings_of(configs@) == Err::<Map<Seq<char>, ConfigForm>, TopicError>(e@),
        },
{
    let mut out = object_new();
    assert(json_object::object_fields(out) =~= Map::empty());
    let mut i: usize = 0;
    while i < configs.len()
        invariant
            i <= configs@.len(),
            settings_of(configs@.take(i as int)) == Ok::<Map<Seq<char>, ConfigForm>, TopicError>(
                json_object::object_fields(out),
            ),
        decreases configs.len() - i,
    {
        assert(configs@.take(i + 1).drop_last() =~= configs@.take(i as int));
        let field = match config_key_to_json_field(&configs[i].0) {
            Some(f) => f,
            None => {
                proof {
                    lemma_settings_refused(configs@, i + 1);
                }
                return Err(unknown_key_error(&configs[i].0));
            },
        };
        match config_value_to_json(&configs[i].0, &configs[i].1) {
            Ok(v) => {
                object_insert(&mut out, field, v);
            },
            Err(e) => {
                proof {
                    lemma_settings_refused(configs@, i + 1);
                }
                return Err(e);
            },
        }
        i = i + 1;
    }
    assert(configs@.take(i as int) =~= configs@);
    Ok(out)
}

pub open spec fn lower_or_digit(c: char) -> bool {
    ('a' <= c && c <= 'z') || ('0' <= c && c <= '9')
}

/// Whether the character at a place may stand there in the name of a
/// resource: letters and digits anywhere, a hyphen where the label neither
/// begins nor ends with it, a dot between labels.
pub open spec fn subdomain_char(s: Seq<char>, i: int) -> bool {
    ||| lower_or_digit(s[i])
    ||| s[i] == '-' && 0 < i && i + 1 < s.len() && s[i - 1] != '.' && s[i + 1] != '.'
    ||| s[i] == '.' && 0 < i && i + 1 < s.len() && s[i - 1] != '.' && s[i + 1] != '.'
}

/// Whether a text can name a resource as it is.
pub open spec fn is_subdomain(s: Seq<char>) -> bool {
    s.len() > 0 && forall|i: int| 0 <= i < s.len() ==> #[trigger] subdomain_char(s, i)
}

fn is_rfc1123_subdomain(s: &str) -> (r: bool)
    ensures
        r == is_subdomain(s@),
{
    let v = chars_of(s);
    if v.len() == 0 {
        return false;
    }
    let mut i: usize = 0;
    while i < v.len()
        invariant
            i <= v@.len(),
            v@ == s@,
            forall|j: int| 0 <= j < i ==> #[trigger] subdomain_char(s@, j),
        decreases v.len() - i,
    {
        let c = v[i];
        let plain = ('a' <= c && c <= 'z') || ('0' <= c && c <= '9');
        let inner = (c == '-' || c == '.') && 0 < i && i + 1 < v.len() && v[i - 1] != '.' && v[i + 1] != '.';
        if !plain && !inner {
            assert(!subdomain_char(s@, i as int));
            return false;
        }
        i = i + 1;
    }
    true
}

/// The longest name of a resource, in bytes.
pub const MAX_NAME: usize = 253;

pub open spec fn hex_char(n: int) -> char {
    if n < 10 {
        (n + 48) as char
    } else {
        (n + 87) as char
    }
}

/// Bytes in hexadecimal, two characters each.
pub open spec fn hex_text(d: Seq<u8>) -> Seq<char>
    decreases d.len(),
{
    if d.len() == 0 {
        Seq::empty()
    } else {
        hex_text(d.drop_last()).push(hex_char(d.last() as int / 16)).push(hex_char(d.last() as int % 16))
    }
}

fn hex_digit(n: u8) -> (c: char)
    requires
        n < 16,
    ensures
        c == hex_char(n as int),
{
    if n < 10 {
        (n + 48) as char
    } else {
        (n + 87) as char
    }
}

/// A made name, out of the first eight bytes of a digest.
pub open spec fn made_name(digest: Seq<u8>) -> Seq<char> {
    "kaas-topic-"@ + hex_text(digest.take(8))
}

/// The made name for a digest.
pub fn synthetic_name(digest: &[u8]) -> (s: String)
    requires
        digest@.len() >= 8,
    ensures
        s@ == made_name(digest@),
{
    let mut s = "kaas-topic-".to_owned();
    let mut i: usize = 0;
    assert(digest@.take(0) =~= Seq::empty());
    assert(hex_text(digest@.take(0)) =~= Seq::empty());
    while i < 8
        invariant
            i <= 8,
            digest@.len() >= 8,
            s@ == "kaas-topic-"@ + hex_text(digest@.take(i as int)),
        decreases 8 - i,
    {
        assert(digest@.take(i + 1).drop_last() =~= digest@.take(i as int));
        s.push(hex_digit(digest[i] / 16));
        s.push(hex_digit(digest[i] % 16));
        assert(s@ =~= "kaas-topic-"@ + hex_text(digest@.take(i + 1)));
        i = i + 1;
    }
    s
}

/// The name of the resource that declares a topic, and the name of the topic
/// where the resource has to carry it.
pub open spec fn cr_name(topic: Seq<char>) -> (Seq<char>, Seq<char>) {
    if utf8::encode_utf8(topic).len() <= MAX_NAME && is_subdomain(topic) {
        (topic, Seq::empty())
    } else {
        (made_name(hashing::sha1(utf8::encode_utf8(topic))), topic)
    }
}

proof fn lemma_hex_text(d: Seq<u8>)
    ensures
        hex_text(d).len() == 2 * d.len(),
        forall|i: int| 0 <= i < hex_text(d).len() ==> lower_or_digit(#[trigger] hex_text(d)[i]),
    decreases d.len(),
{
    if d.len() > 0 {
        lemma_hex_text(d.drop_last());
    }
}

proof fn lemma_resource_name(topic: Seq<char>)
    requires
        hashing::sha1(utf8::encode_utf8(topic)).len() == 20,
    ensures
        is_subdomain(cr_name(topic).0),
        utf8::encode_utf8(cr_name(topic).0).len() <= MAX_NAME,
{
    let d = hashing::sha1(utf8::encode_utf8(topic)).take(8);
    let s = made_name(hashing::sha1(utf8::encode_utf8(topic)));
    lemma_hex_text(d);
    reveal_strlit("kaas-topic-");
    let h = "kaas-topic-"@;
    assert(h =~= seq!['k', 'a', 'a', 's', '-', 't', 'o', 'p', 'i', 'c', '-']);
    assert(s.len() == 27);
    assert forall|i: int| 0 <= i < s.len() implies #[trigger] subdomain_char(s, i) by {
        if i >= 11 {
            assert(s[i] == hex_text(d)[i - 11]);
        } else {
            assert(s[i] == h[i]);
            if i == 10 {
                assert(s[11] == hex_text(d)[0]);
            }
        }
    }
    assert forall|i: int| 0 <= i < s.len() implies (s[i] as u32) < 128 by {
        assert(subdomain_char(s, i));
    }
    assert(utf8::is_ascii_chars(s));
    utf8::is_ascii_chars_encode_utf8(s);
}

/// The name of the resource that declares a topic, and the name of the topic
/// where it cannot name the resource. The first can always name a resource.
pub fn name_for_cr(kafka_name: &str) -> (r: (String, String))
    ensures
        (r.0@, r.1@) == cr_name(kafka_name@),
        is_subdomain(r.0@),
        utf8::encode_utf8(r.0@).len() <= MAX_NAME,
{
    if kafka_name.as_bytes().len() <= MAX_NAME && is_rfc1123_subdomain(kafka_name) {
        let empty = String::new();
        assert(empty@ =~= Seq::empty());
        return (kafka_name.to_owned(), empty);
    }
    let digest = sha1_digest(kafka_name.as_bytes());
    proof {
        lemma_resource_name(kafka_name@);
    }
    (synthetic_name(&digest), kafka_name.to_owned())
}

/// The topic that a declaration is of: the name that it carries, else the
/// name of the resource.
pub open spec fn declared_topic(name: Seq<char>, topic_name: Seq<char>) -> Seq<char> {
    if topic_name.len() == 0 {
        name
    } else {
        topic_name
    }
}

/// The topic that a declaration is of.
pub fn effective_topic_name(name: &str, topic_name: &str) -> (s: String)
    ensures
        s@ == declared_topic(name@, topic_name@),
{
    if topic_name.is_empty() {
        name.to_owned()
    } else {
        topic_name.to_owned()
    }
}

/// No setting of a new topic vanishes: where the settings are accepted, each
/// has a field, and the field holds the value of the last setting for it.
pub proof fn law_no_setting_vanishes(configs: Seq<(String, String)>, i: int)
    requires
        settings_of(configs) is Ok,
        0 <= i < configs.len(),
    ensures
        field_of(configs[i].0@) is Some,
        settings_of(configs)->Ok_0.contains_key(field_of(configs[i].0@)->0),
        (forall|j: int| i < j < configs.len() ==> field_of((#[trigger] configs[j]).0@) != field_of(configs[i].0@)) ==> value_of(
            configs[i].0@,
            configs[i].1@,
        ) == Ok::<ConfigForm, TopicError>(settings_of(configs)->Ok_0[field_of(configs[i].0@)->0]),
    decreases configs.len(),
{
    let d = configs.drop_last();
    if i < d.len() {
        law_no_setting_vanishes(d, i);
        assert(d[i] == configs[i]);
        if forall|j: int| i < j < configs.len() ==> field_of((#[trigger] configs[j]).0@) != field_of(configs[i].0@) {
            assert(configs[configs.len() - 1] == configs.last());
            assert forall|j: int| i < j < d.len() implies field_of((#[trigger] d[j]).0@) != field_of(d[i].0@) by {
                assert(d[j] == configs[j]);
            }
        }
    }
}

/// The resource made for a topic declares that topic.
pub proof fn law_declaration_is_of_its_topic(topic: Seq<char>)
    requires
        topic.len() > 0,
    ensures
        declared_topic(cr_name(topic).0, cr_name(topic).1) == topic,
{
}

/// Two topics whose names can name a resource have different resources.
pub proof fn law_plain_names_are_kept_apart(a: Seq<char>, b: Seq<char>)
    requires
        a != b,
        cr_name(a).1.len() == 0,
        cr_name(b).1.len() == 0,
        a.len() > 0,
        b.len() > 0,
    ensures
        cr_name(a).0 != cr_name(b).0,
{
}

/// Marks for resources that are made here, so that a deployment tool takes
/// them for its own.
#[derive(Debug, Clone, PartialEq, Eq)]
pub struct ArgoCdConfig {
    pub enabled: bool,
    pub application_name: String,
    pub compare_options: String,
    pub sync_options: String,
}

impl Default for ArgoCdConfig {
    fn default() -> (c: ArgoCdConfig)
        ensures
            !c.enabled,
            c.application_name@ == Seq::<char>::empty(),
            c.compare_options@ == Seq::<char>::empty(),
            c.sync_options@ == Seq::<char>::empty(),
    {
        ArgoCdConfig {
            enabled: false,
            application_name: String::new(),
            compare_options: String::new(),
            sync_options: String::new(),
        }
    }
}

/// What ties a resource to an application.
pub open spec fn tracking_id(app: Seq<char>, group: Seq<char>, kind: Seq<char>, namespace: Seq<char>, name: Seq<char>) -> Seq<char> {
    app + ":"@ + group + "/"@ + kind + ":"@ + namespace + "/"@ + name
}

/// The marks of a resource; none where they are switched off.
pub open spec fn marks(c: ArgoCdConfig, group: Seq<char>, kind: Seq<char>, namespace: Seq<char>, name: Seq<char>) -> Option<
    Map<Seq<char>, Seq<char>>,
> {
    if c.enabled {
        Some(
            Map::<Seq<char>, Seq<char>>::empty().insert(
                "argocd.argoproj.io/tracking-id"@,
                tracking_id(c.application_name@, group, kind, namespace, name),
            ).insert("argocd.argoproj.io/compare-options"@, c.compare_options@).insert(
                "argocd.argoproj.io/sync-options"@,
                c.sync_options@,
            ),
        )
    } else {
        None
    }
}

impl ArgoCdConfig {
    /// The marks of a resource.
    pub fn annotations(&self, group: &str, kind: &str, namespace: &str, name: &str) -> (r: Option<TextMap<String>>)
        ensures
            match r {
                Some(m) => marks(*self, group@, kind@, namespace@, name@) == Some(m@.map_values(text::string_view())),
                None => marks(*self, group@, kind@, namespace@, name@) is None,
            },
    {
        if !self.enabled {
            return None;
        }
        let mut id = self.application_name.clone();
        id.push_str(":");
        id.push_str(group);
        id.push_str("/");
        id.push_str(kind);
        id.push_str(":");
        id.push_str(namespace);
        id.push_str("/");
        id.push_str(name);
        let mut m: TextMap<String> = TextMap::new();
        m.insert("argocd.argoproj.io/tracking-id".to_owned(), id);
        m.insert("argocd.argoproj.io/compare-options".to_owned(), self.compare_options.clone());
        m.insert("argocd.argoproj.io/sync-options".to_owned(), self.sync_options.clone());
        assert(m@.map_values(text::string_view()) =~= marks(*self, group@, kind@, namespace@, name@)->0);
        Some(m)
    }
}

/// A topic to declare.
pub struct TopicDeclaration {
    pub name: String,
    pub namespace: String,
    pub annotations: Option<TextMap<String>>,
    /// Empty where the resource has the topic's name.
    pub topic_name: String,
    pub partitions: i32,
    pub config: serde_json::Map<String, serde_json::Value>,
}

/// The group of the declarations.
pub const TOPIC_GROUP: &'static str = "kaas.rs";

/// The kind of the declarations.
pub const TOPIC_KIND: &'static str = "KafkaTopic";

/// What is declared for a topic.
pub fn build_cr(namespace: &str, argocd: &ArgoCdConfig, name: &str, num_partitions: i32, configs: &[(String, String)]) -> (r: Result<
    TopicDeclaration,
    TopicWriteError,
>)
    ensures
        match r {
            Ok(t) => {
                &&& settings_of(configs@) == Ok::<Map<Seq<char>, ConfigForm>, TopicError>(json_object::object_fields(t.config))
                &&& (t.name@, t.topic_name@) == cr_name(name@)
                &&& t.namespace@ == namespace@
                &&& t.partitions == num_partitions
                &&& match t.annotations {
                    Some(m) => marks(*argocd, TOPIC_GROUP@, TOPIC_KIND@, namespace@, t.name@) == Some(m@.map_values(text::string_view())),
                    None => marks(*argocd, TOPIC_GROUP@, TOPIC_KIND@, namespace@, t.name@) is None,
                }
            },
            Err(e) => settings_of(configs@) == Err::<Map<Seq<char>, ConfigForm>, TopicError>(e@),
        },
{
    let config = match create_configs_to_spec(configs) {
        Ok(m) => m,
        Err(e) => {
            return Err(e);
        },
    };
    let (meta, topic) = name_for_cr(name);
    let annotations = argocd.annotations(TOPIC_GROUP, TOPIC_KIND, namespace, &meta);
    Ok(
        TopicDeclaration {
            name: meta,
            namespace: namespace.to_owned(),
            annotations,
            topic_name: topic,
            partitions: num_partitions,
            config,
        },
    )
}

/// Refuses to take partitions away from a topic.
pub fn check_expansion(current: i32, requested: i32) -> (r: Result<(), TopicWriteError>)
    ensures
        match r {
            Ok(u) => current <= requested,
            Err(e) => current > requested && e@ == TopicError::InvalidPartitions(
                "current "@ + text::int_text(current as int) + " → requested "@ + text::int_text(requested as int),
            ),
        },
{
    if current > requested {
        let c = int_string(current as i64);
        let q = int_string(requested as i64);
        let mut m = joined3("current ", &c, " → requested ");
        m.push_str(&q);
        return Err(TopicWriteError::InvalidPartitions(m));
    }
    Ok(())
}

/// The patch that moves a partition to a directory.
pub fn placement_patch(partition: i32, log_dir: &str) -> (m: serde_json::Map<String, serde_json::Value>)
    ensures
        json_object::object_fields(m) == Map::<Seq<char>, ConfigForm>::empty().insert(
            text::int_text(partition as int),
            ConfigForm::Text(log_dir@),
        ),
{
    let mut m = object_new();
    assert(json_object::object_fields(m) =~= Map::empty());
    let key = int_string(partition as i64);
    object_insert(&mut m, &key, ConfigValue::Text(log_dir.to_owned()));
    m
}

/// A call to the API server.
#[derive(Debug, Clone, Copy, PartialEq, Eq, Structural)]
pub enum TopicCall {
    Create,
    /// The patch that adds partitions, once the topic was found.
    Expand,
    /// Any other call.
    Named,
}

/// What a refusal means: `code` is none where the server was not reached,
/// `message` is the server's, `shown` the whole error in words.
pub open spec fn write_error(call: TopicCall, name: Seq<char>, code: Option<u16>, message: Seq<char>, shown: Seq<char>) -> TopicError {
    if call == TopicCall::Create && code == Some(409u16) {
        TopicError::AlreadyExists(name)
    } else if call == TopicCall::Named && code == Some(404u16) {
        TopicError::NotFound(name)
    } else if code == Some(403u16) {
        TopicError::Forbidden(message)
    } else if code == Some(404u16) {
        TopicError::NotFound(message)
    } else {
        TopicError::Other(shown)
    }
}

/// What a refusal of the API server means.
pub fn topic_write_error(call: TopicCall, name: &str, code: Option<u16>, message: &str, shown: &str) -> (e: TopicWriteError)
    ensures
        e@ == write_error(call, name@, code, message@, shown@),
{
    let c: u16 = match code {
        Some(c) => c,
        None => {
            return TopicWriteError::Other(shown.to_owned());
        },
    };
    if call == TopicCall::Create && c == 409 {
        TopicWriteError::AlreadyExists(name.to_owned())
    } else if call == TopicCall::Named && c == 404 {
        TopicWriteError::NotFound(name.to_owned())
    } else if c == 403 {
        TopicWriteError::Forbidden(message.to_owned())
    } else if c == 404 {
        TopicWriteError::NotFound(message.to_owned())
    } else {
        TopicWriteError::Other(shown.to_owned())
    }
}

} // verus!

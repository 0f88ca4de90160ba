//! JSON objects, kept in a `serde_json::Map`.

use vstd::prelude::*;

verus! {

/// A value of a setting.
#[derive(Debug, Clone, PartialEq, Eq)]
pub enum ConfigValue {
    Null,
    Number(i64),
    Text(String),
}

#[verifier::ext_equal]
pub enum ConfigForm {
    Null,
    Number(i64),
    Text(Seq<char>),
}

impl View for ConfigValue {
    type V = ConfigForm;

    open spec fn view(&self) -> ConfigForm {
        match self {
            ConfigValue::Null => ConfigForm::Null,
            ConfigValue::Number(n) => ConfigForm::Number(*n),
            ConfigValue::Text(s) => ConfigForm::Text(s@),
        }
    }
}

#[verifier::external_type_specification]
#[verifier::external_body]
pub struct ExJsonValue(serde_json::Value);

#[verifier::external_type_specification]
#[verifier::external_body]
#[verifier::reject_recursive_types(K)]
#[verifier::reject_recursive_types(V)]
pub struct ExJsonMap<K, V>(serde_json::Map<K, V>);

/// What an object holds: values by field.
pub uninterp spec fn object_fields(m: serde_json::Map<String, serde_json::Value>) -> Map<Seq<char>, ConfigForm>;

/// `serde_json::Map::new` makes an empty object.
#[verifier::external_body]
pub(crate) fn object_new() -> (m: serde_json::Map<String, serde_json::Value>)
    ensures
        object_fields(m).dom() == Set::<Seq<char>>::empty(),
{
    serde_json::Map::new()
}

/// `serde_json::Map::insert` puts a value under a field, in place of the one
/// that was there. A null, an integer and a text become the JSON value of the
/// same name.
#[verifier::external_body]
pub(crate) fn object_insert(m: &mut serde_json::Map<String, serde_json::Value>, field: &str, value: ConfigValue)
    ensures
        object_fields(*final(m)) == object_fields(*old(m)).insert(field@, value@),
{
    m.insert(
        field.to_owned(),
        match value {
            ConfigValue::Null => serde_json::Value::Null,
            ConfigValue::Number(n) => serde_json::Value::Number(n.into()),
            ConfigValue::Text(s) => serde_json::Value::String(s),
        },
    );
}

} // verus!

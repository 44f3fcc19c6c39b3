//! YAML values of node options, as the parser hands them over.

use vstd::prelude::*;

verus! {

/// A parsed YAML value.
#[verifier::external_type_specification]
#[verifier::external_body]
pub struct ExYamlValue(serde_yaml::Value);

/// What a YAML value holds.
pub enum YamlView {
    Null,
    Bool(bool),
    /// An integer in the range of `i64` or `u64`.
    Integer(int),
    /// A number with a fraction, by its bits.
    Real(int),
    Text(Seq<char>),
    List(Seq<YamlView>),
    Table(Seq<(YamlView, YamlView)>),
    Tagged(Seq<char>, Box<YamlView>),
}

/// What a YAML value holds.
pub uninterp spec fn yaml_content(v: serde_yaml::Value) -> YamlView;

impl YamlView {
    /// The value without the tags in front of it.
    pub open spec fn untagged(self) -> YamlView
        decreases self,
    {
        match self {
            YamlView::Tagged(_, inner) => inner.untagged(),
            _ => self,
        }
    }

    /// What a table holds under a key that is a text.
    pub open spec fn entry(self, key: Seq<char>) -> Option<YamlView> {
        match self.untagged() {
            YamlView::Table(entries) => entry_of(entries, key),
            _ => None,
        }
    }

    /// The value as a signed number, if it is an integer that fits.
    pub open spec fn as_signed(self) -> Option<i64> {
        match self.untagged() {
            YamlView::Integer(n) => if i64::MIN <= n <= i64::MAX {
                Some(n as i64)
            } else {
                None
            },
            _ => None,
        }
    }

    /// The value as an unsigned number, if it is an integer that fits.
    pub open spec fn as_unsigned(self) -> Option<u64> {
        match self.untagged() {
            YamlView::Integer(n) => if 0 <= n <= u64::MAX {
                Some(n as u64)
            } else {
                None
            },
            _ => None,
        }
    }

    pub open spec fn as_truth(self) -> Option<bool> {
        match self.untagged() {
            YamlView::Bool(b) => Some(b),
            _ => None,
        }
    }

    pub open spec fn as_text(self) -> Option<Seq<char>> {
        match self.untagged() {
            YamlView::Text(s) => Some(s),
            _ => None,
        }
    }

    pub open spec fn as_list(self) -> Option<Seq<YamlView>> {
        match self.untagged() {
            YamlView::List(items) => Some(items),
            _ => None,
        }
    }
}

/// The value of the first entry whose key is the text `key`.
pub open spec fn entry_of(entries: Seq<(YamlView, YamlView)>, key: Seq<char>) -> Option<YamlView>
    decreases entries.len(),
{
    if entries.len() == 0 {
        None
    } else if entries[0].0 == YamlView::Text(key) {
        Some(entries[0].1)
    } else {
        entry_of(entries.drop_first(), key)
    }
}

/// What the values of a list hold.
pub open spec fn yaml_contents(list: Seq<serde_yaml::Value>) -> Seq<YamlView> {
    Seq::new(list.len(), |i: int| yaml_content(list[i]))
}

/// `Value::clone`: the copy holds what the value holds.
#[verifier::external_body]
pub(crate) fn yaml_copy(v: &serde_yaml::Value) -> (r: serde_yaml::Value)
    ensures
        yaml_content(r) == yaml_content(*v),
{
    v.clone()
}

/// `Value::default`: the null value.
#[verifier::external_body]
pub(crate) fn yaml_null() -> (r: serde_yaml::Value)
    ensures
        yaml_content(r) == YamlView::Null,
{
    serde_yaml::Value::default()
}

/// `Value::get` with a text: what a table, tagged or not, holds under that
/// key; nothing for any other value.
#[verifier::external_body]
pub(crate) fn yaml_get<'a>(v: &'a serde_yaml::Value, key: &str) -> (r: Option<
    &'a serde_yaml::Value,
>)
    ensures
        match r {
            Some(x) => yaml_content(*v).entry(key@) == Some(yaml_content(*x)),
            None => yaml_content(*v).entry(key@) is None,
        },
{
    v.get(key)
}

/// `Value::as_i64`: an integer in the range of `i64`, tagged or not.
#[verifier::external_body]
pub(crate) fn yaml_signed(v: &serde_yaml::Value) -> (r: Option<i64>)
    ensures
        r == yaml_content(*v).as_signed(),
{
    v.as_i64()
}

/// `Value::as_u64`: an integer in the range of `u64`, tagged or not.
#[verifier::external_body]
pub(crate) fn yaml_unsigned(v: &serde_yaml::Value) -> (r: Option<u64>)
    ensures
        r == yaml_content(*v).as_unsigned(),
{
    v.as_u64()
}

/// `Value::as_bool`: a truth value, tagged or not.
#[verifier::external_body]
pub(crate) fn yaml_truth(v: &serde_yaml::Value) -> (r: Option<bool>)
    ensures
        r == yaml_content(*v).as_truth(),
{
    v.as_bool()
}

/// `Value::as_str`: a text, tagged or not.
#[verifier::external_body]
pub(crate) fn yaml_text(v: &serde_yaml::Value) -> (r: Option<&str>)
    ensures
        match r {
            Some(s) => yaml_content(*v).as_text() == Some(s@),
            None => yaml_content(*v).as_text() is None,
        },
{
    v.as_str()
}

/// `Value::as_sequence`: the values of a list, tagged or not.
#[verifier::external_body]
pub(crate) fn yaml_list(v: &serde_yaml::Value) -> (r: Option<&Vec<serde_yaml::Value>>)
    ensures
        match r {
            Some(list) => yaml_content(*v).as_list() == Some(yaml_contents(list@)),
            None => yaml_content(*v).as_list() is None,
        },
{
    v.as_sequence()
}

/// The JSON text of a YAML value, if it has one.
pub uninterp spec fn json_of(v: YamlView) -> Option<Seq<char>>;

/// `serde_json::to_string` on a YAML value: its compact JSON text, or nothing
/// where the value has no JSON form: somewhere in it stands a table with a key
/// that is null, a list, a table, a tagged value or a number that is not
/// finite.
/// The text of the null value is `null`.
#[verifier::external_body]
pub(crate) fn yaml_to_json(v: &serde_yaml::Value) -> (r: Option<String>)
    ensures
        match r {
            Some(s) => json_of(yaml_content(*v)) == Some(s@),
            None => json_of(yaml_content(*v)) is None,
        },
        yaml_content(*v) is Null ==> r is Some && r->Some_0@ == "null"@,
{
    serde_json::to_string(v).ok()
}

} // verus!

//! The calls into other crates. Nothing here is proved: each contract says what
//! the called function is known to do.

use crate::settings::TomlNode;
use chrono::Datelike;
use vstd::prelude::*;

verus! {

/// The error of `regex::Regex::new`.
#[verifier::external_type_specification]
#[verifier::external_body]
pub struct ExRegexError(regex::Error);

/// Whether `regex::Regex::new` accepts `pattern`.
pub uninterp spec fn regex_compiles(pattern: Seq<char>) -> bool;

/// What `regex::Regex::captures` finds of `pattern` in `text`: nothing where
/// the pattern matches nowhere, else the groups of the leftmost match. Group 0
/// is the whole match, and a group that took no part in the match is `None`.
pub uninterp spec fn regex_groups(pattern: Seq<char>, text: Seq<char>) -> Option<
    Seq<Option<Seq<char>>>,
>;

/// The texts that the groups of a match hold.
pub open spec fn groups_view(groups: Option<Vec<Option<String>>>) -> Option<
    Seq<Option<Seq<char>>>,
> {
    match groups {
        Some(v) => Some(
            Seq::new(
                v@.len(),
                |i: int|
                    match v@[i] {
                        Some(s) => Some(s@),
                        None => None,
                    },
            ),
        ),
        None => None,
    }
}

/// `regex::Regex::new` on `pattern`, and `Regex::captures` of the result on
/// `text`, each group handed out as a string. The call fails exactly on the
/// patterns that `Regex::new` refuses; otherwise the groups are those that
/// `captures` finds, which the pattern and the text alone decide.
#[verifier::external_body]
pub(crate) fn regex_captures(pattern: &str, text: &str) -> (r: Result<
    Option<Vec<Option<String>>>,
    regex::Error,
>)
    ensures
        r is Ok == regex_compiles(pattern@),
        r matches Ok(groups) ==> groups_view(groups) == regex_groups(pattern@, text@),
{
    let re = regex::Regex::new(pattern)?;
    Ok(re.captures(text).map(|c| c.iter().map(|m| m.map(|m| m.as_str().to_string())).collect()))
}

/// The error of `toml::from_str`.
#[verifier::external_type_specification]
#[verifier::external_body]
pub struct ExTomlError(toml::de::Error);

/// A value of a TOML document, as the `toml` crate holds it.
#[verifier::external_type_specification]
#[verifier::external_body]
pub struct ExTomlValue(toml::Value);

/// The document that `toml::from_str` reads from `text` as a table, where it
/// reads one.
pub uninterp spec fn toml_document(text: Seq<char>) -> Option<TomlNode>;

/// Hands out a `toml::Value` as a node of this crate, variant by variant. A
/// float keeps no value, a date and time is written out by its `to_string`,
/// and the entries of a table come in the order in which the table walks them.
#[verifier::external_body]
fn toml_node(value: &toml::Value) -> TomlNode {
    match value {
        toml::Value::String(s) => TomlNode::Text(s.clone()),
        toml::Value::Integer(i) => TomlNode::Integer(*i),
        toml::Value::Float(_) => TomlNode::Float,
        toml::Value::Boolean(b) => TomlNode::Boolean(*b),
        toml::Value::Datetime(d) => TomlNode::Datetime(d.to_string()),
        toml::Value::Array(a) => TomlNode::Array(a.iter().map(toml_node).collect()),
        toml::Value::Table(t) => {
            TomlNode::Table(t.iter().map(|(k, v)| (k.clone(), toml_node(v))).collect())
        },
    }
}

/// `toml::from_str` on `text`, read as a table. The call fails exactly on the
/// texts that are no TOML document; otherwise the document comes back as a
/// node of this crate, which the text alone decides.
#[verifier::external_body]
pub(crate) fn parse_toml(text: &str) -> (r: Result<TomlNode, toml::de::Error>)
    ensures
        match r {
            Ok(node) => toml_document(text@) == Some(node),
            Err(_) => toml_document(text@) is None,
        },
{
    let table: toml::Table = toml::from_str(text)?;
    Ok(toml_node(&toml::Value::Table(table)))
}

/// `chrono::Utc::now` followed by `Datelike::year`: the calendar year of the
/// system clock in UTC. The clock decides the value, so the contract holds only
/// what the result type of `year` gives: the year fits in an `i32`.
/// `Utc::now` expects a clock that is not set before 1970.
#[verifier::external_body]
pub(crate) fn current_year() -> (y: i64)
    ensures
        i32::MIN <= y <= i32::MAX,
{
    i64::from(chrono::Utc::now().year())
}

} // verus!

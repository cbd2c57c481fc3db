//! The settings file: what a TOML document holds, and which of it configures
//! a run.

use crate::config::{Config, ConfigError};
use crate::metadata::strings;
use crate::outside::{parse_toml, toml_document};
use crate::text::{eq_chars, to_chars};
use vstd::prelude::*;

verus! {

/// A value of a TOML document. A table holds its entries in the order of the
/// document; no key stands in it twice.
#[derive(Debug)]
pub enum TomlNode {
    Text(String),
    Integer(i64),
    Float,
    Boolean(bool),
    Datetime(String),
    Array(Vec<TomlNode>),
    Table(Vec<(String, TomlNode)>),
}

/// The key of the table that holds the settings.
pub open spec fn settings_key() -> Seq<char> {
    "tool.licensepy"@
}

/// The value that stands under `key` in the entries of a table: that of the
/// first entry with this key.
pub open spec fn entry_of(entries: Seq<(String, TomlNode)>, key: Seq<char>) -> Option<TomlNode>
    decreases entries.len(),
{
    if entries.len() == 0 {
        None
    } else if entries[0].0@ == key {
        Some(entries[0].1)
    } else {
        entry_of(entries.drop_first(), key)
    }
}

/// The texts among the items of an array, in their order.
pub open spec fn texts_among(items: Seq<TomlNode>) -> Seq<Seq<char>>
    decreases items.len(),
{
    if items.len() == 0 {
        Seq::empty()
    } else {
        match items.last() {
            TomlNode::Text(s) => texts_among(items.drop_last()).push(s@),
            _ => texts_among(items.drop_last()),
        }
    }
}

/// The entries of the settings table of a document, where it has one.
pub open spec fn settings_of(doc: TomlNode) -> Option<Seq<(String, TomlNode)>> {
    match doc {
        TomlNode::Table(entries) => match entry_of(entries@, settings_key()) {
            Some(TomlNode::Table(inner)) => Some(inner@),
            _ => None,
        },
        _ => None,
    }
}

/// The text that stands under `key`, where a text stands there.
pub open spec fn text_entry(entries: Seq<(String, TomlNode)>, key: Seq<char>) -> Option<Seq<char>> {
    match entry_of(entries, key) {
        Some(TomlNode::Text(s)) => Some(s@),
        _ => None,
    }
}

/// What a document configures: the licenses to avoid, the header template,
/// the license year and the licensee. What the document does not set is empty,
/// and the year is `current_year`.
pub open spec fn configured(doc: TomlNode, current_year: i64) -> (
    Seq<Seq<char>>,
    Option<Seq<char>>,
    i64,
    Option<Seq<char>>,
) {
    match settings_of(doc) {
        None => (Seq::empty(), None, current_year, None),
        Some(entries) => (
            match entry_of(entries, "avoid"@) {
                Some(TomlNode::Array(items)) => texts_among(items@),
                _ => Seq::empty(),
            },
            text_entry(entries, "license_header_template"@),
            match entry_of(entries, "license_year"@) {
                Some(TomlNode::Integer(y)) => y,
                _ => current_year,
            },
            text_entry(entries, "licensee"@),
        ),
    }
}

/// What a configuration holds, as texts.
pub open spec fn config_view(c: Config) -> (
    Seq<Seq<char>>,
    Option<Seq<char>>,
    i64,
    Option<Seq<char>>,
) {
    (strings(c.avoid@), c.template_text(), c.license_year, c.licensee_text())
}

/// The value under `key` in the entries of a table.
pub fn lookup<'a>(entries: &'a Vec<(String, TomlNode)>, key: &str) -> (r: Option<&'a TomlNode>)
    ensures
        match r {
            Some(node) => entry_of(entries@, key@) == Some(*node),
            None => entry_of(entries@, key@) is None,
        },
{
    let k = to_chars(key);
    let mut i: usize = 0;
    assert(entries@.skip(0) =~= entries@);
    while i < entries.len()
        invariant
            i <= entries.len(),
            k@ == key@,
            entry_of(entries@, key@) == entry_of(entries@.skip(i as int), key@),
        decreases entries.len() - i,
    {
        let name = to_chars(entries[i].0.as_str());
        if eq_chars(&name, &k) {
            return Some(&entries[i].1);
        }
        assert(entries@.skip(i as int).drop_first() =~= entries@.skip(i + 1));
        i += 1;
    }
    None
}

fn text_of(entries: &Vec<(String, TomlNode)>, key: &str) -> (r: Option<String>)
    ensures
        match r {
            Some(s) => text_entry(entries@, key@) == Some(s@),
            None => text_entry(entries@, key@) is None,
        },
{
    match lookup(entries, key) {
        Some(TomlNode::Text(s)) => Some(s.clone()),
        _ => None,
    }
}

fn texts_of(items: &Vec<TomlNode>) -> (r: Vec<String>)
    ensures
        strings(r@) == texts_among(items@),
{
    let mut r: Vec<String> = Vec::new();
    let mut i: usize = 0;
    assert(items@.take(0) =~= Seq::<TomlNode>::empty());
    assert(strings(r@) =~= Seq::<Seq<char>>::empty());
    while i < items.len()
        invariant
            i <= items.len(),
            strings(r@) == texts_among(items@.take(i as int)),
        decreases items.len() - i,
    {
        let ghost before = strings(r@);
        assert(items@.take(i + 1).drop_last() =~= items@.take(i as int));
        assert(items@.take(i + 1).last() == items@[i as int]);
        match &items[i] {
            TomlNode::Text(s) => {
                r.push(s.clone());
                assert(strings(r@) =~= before.push(s@));
            },
            _ => {},
        }
        i += 1;
    }
    assert(items@.take(items.len() as int) =~= items@);
    r
}

/// The configuration that a document sets, for the year `current_year` where
/// the document sets none.
pub fn config_from_document(doc: &TomlNode, current_year: i64) -> (c: Config)
    ensures
        config_view(c) == configured(*doc, current_year),
{
    let mut config = Config::with_year(current_year);
    assert(strings(config.avoid@) =~= Seq::<Seq<char>>::empty());
    if let TomlNode::Table(entries) = doc {
        if let Some(TomlNode::Table(inner)) = lookup(entries, "tool.licensepy") {
            if let Some(TomlNode::Array(items)) = lookup(inner, "avoid") {
                config.avoid = texts_of(items);
            }
            config.licensee = text_of(inner, "licensee");
            if let Some(TomlNode::Integer(y)) = lookup(inner, "license_year") {
                config.license_year = *y;
            }
            config.license_header_template = text_of(inner, "license_header_template");
        }
    }
    config
}

/// What `read_config` gives for the text of the settings file, where there is
/// such a file.
pub open spec fn config_of_file(text: Option<Seq<char>>, current_year: i64) -> Result<
    (Seq<Seq<char>>, Option<Seq<char>>, i64, Option<Seq<char>>),
    ConfigError,
> {
    match text {
        None => Ok((Seq::empty(), None, current_year, None)),
        Some(t) => match toml_document(t) {
            Some(doc) => Ok(configured(doc, current_year)),
            None => Err(ConfigError::InvalidToml),
        },
    }
}

/// Reads the configuration from the text of the settings file. Without a file
/// nothing is set. A file that is no TOML document is an error.
pub fn read_config(text: Option<&str>, current_year: i64) -> (r: Result<Config, ConfigError>)
    ensures
        match r {
            Ok(c) => config_of_file(
                match text {
                    Some(t) => Some(t@),
                    None => None,
                },
                current_year,
            ) == Ok::<_, ConfigError>(config_view(c)),
            Err(e) => config_of_file(
                match text {
                    Some(t) => Some(t@),
                    None => None,
                },
                current_year,
            ) == Err::<(Seq<Seq<char>>, Option<Seq<char>>, i64, Option<Seq<char>>), _>(e),
        },
{
    match text {
        None => {
            let c = Config::with_year(current_year);
            assert(strings(c.avoid@) =~= Seq::<Seq<char>>::empty());
            Ok(c)
        },
        Some(t) => match parse_toml(t) {
            Ok(doc) => Ok(config_from_document(&doc, current_year)),
            Err(_) => Err(ConfigError::InvalidToml),
        },
    }
}

} // verus!

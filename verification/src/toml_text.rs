//! Texts in TOML files: reading one, and putting one in.
use vstd::prelude::*;
use vstd::string::*;

use crate::text::text_of;

verus! {

/// The text under a key of a section of a TOML file, if the file is one and holds a text
/// there.
pub uninterp spec fn toml_text(content: Seq<char>, section: Seq<char>, key: Seq<char>) -> Option<
    Seq<char>,
>;

/// Parses the content as `toml::Value`, and calls `get` with the section and with the key,
/// and `as_str`: what comes out is a function of the three texts.
#[verifier::external_body]
pub(crate) fn read_toml_text(content: &str, section: &str, key: &str) -> (r: Option<String>)
    ensures
        text_of(r) == toml_text(content@, section@, key@),
{
    let value = content.parse::<toml::Value>().ok()?;
    value.get(section)?.get(key)?.as_str().map(String::from)
}

/// A TOML file with a text put under a key of a section, if the file is one and the section
/// is a table or is not there.
pub uninterp spec fn toml_with(
    content: Seq<char>,
    section: Seq<char>,
    key: Seq<char>,
    value: Seq<char>,
) -> Option<Seq<char>>;

/// Parses the content as `toml::Table`, takes or makes the table of the section, inserts the
/// text under the key, and calls `toml::to_string_pretty`: what comes out is a function of
/// the four texts.
#[verifier::external_body]
pub(crate) fn put_toml_text(content: &str, section: &str, key: &str, value: &str) -> (r: Option<String>)
    ensures
        text_of(r) == toml_with(content@, section@, key@, value@),
{
    let mut root = content.parse::<toml::Table>().ok()?;
    let table = root.entry(section).or_insert(toml::Value::Table(toml::Table::new()));
    table.as_table_mut()?.insert(key.to_string(), toml::Value::String(value.to_string()));
    toml::to_string_pretty(&root).ok()
}

} // verus!

//! Tables in TOML.
//!
//! A table is known by its keys and, for each of them, by the text of its value
//! in TOML.

use vstd::prelude::*;
use crate::text;

verus! {

#[verifier::external_type_specification]
#[verifier::external_body]
#[verifier::reject_recursive_types(K)]
#[verifier::reject_recursive_types(V)]
pub struct ExMap<K, V>(toml::map::Map<K, V>);

#[verifier::external_type_specification]
#[verifier::external_body]
pub struct ExValue(toml::Value);

/// The keys of a table and the texts of their values.
pub uninterp spec fn table_entries(t: toml::map::Map<String, toml::Value>) -> Map<
    Seq<char>,
    Seq<char>,
>;

/// The table that a text is read as, or what is wrong with the text.
pub uninterp spec fn toml_read(content: Seq<char>) -> Result<Map<Seq<char>, Seq<char>>, Seq<char>>;

/// The text of a table, or why it has none.
pub uninterp spec fn toml_written(entries: Map<Seq<char>, Seq<char>>) -> Result<
    Seq<char>,
    Seq<char>,
>;

/// The string that a value is, by its text; `None` if it is something else.
pub uninterp spec fn toml_string(value: Seq<char>) -> Option<Seq<char>>;

/// The text of an array of tables that hold strings under their keys.
pub uninterp spec fn toml_rows(rows: Seq<Seq<(Seq<char>, Seq<char>)>>) -> Seq<char>;

/// The texts of a list of tables.
pub open spec fn row_views(rows: Seq<Vec<(String, String)>>) -> Seq<Seq<(Seq<char>, Seq<char>)>> {
    rows.map_values(
        |r: Vec<(String, String)>| r@.map_values(|p: (String, String)| (p.0@, p.1@)),
    )
}

/// `toml::from_str` reads a text as a table. Only that keys and values depend on
/// the text alone is said of it.
#[verifier::external_body]
pub(crate) fn read_table(content: &str) -> (result: Result<
    toml::map::Map<String, toml::Value>,
    String,
>)
    ensures
        match result {
            Ok(t) => toml_read(content@) == Ok::<Map<Seq<char>, Seq<char>>, Seq<char>>(
                table_entries(t),
            ),
            Err(e) => toml_read(content@) == Err::<Map<Seq<char>, Seq<char>>, Seq<char>>(e@),
        },
{
    toml::from_str(content).map_err(|e: toml::de::Error| e.to_string())
}

/// `Map::get` finds the value under a key, and `Value::as_str` gives the string
/// that it is, if it is one.
#[verifier::external_body]
pub(crate) fn string_at(
    table: &toml::map::Map<String, toml::Value>,
    key: &str,
) -> (result: Option<String>)
    ensures
        text::opt_text(result) == if table_entries(*table).contains_key(key@) {
            toml_string(table_entries(*table)[key@])
        } else {
            None
        },
{
    table.get(key).and_then(|v| v.as_str()).map(|s| s.to_string())
}

/// `Map::insert` puts an array of tables under a key, in place of what was
/// there. The other keys keep their values.
#[verifier::external_body]
pub(crate) fn put_rows(
    table: &mut toml::map::Map<String, toml::Value>,
    key: &str,
    rows: &Vec<Vec<(String, String)>>,
)
    ensures
        table_entries(*final(table)) == table_entries(*old(table)).insert(
            key@,
            toml_rows(row_views(rows@)),
        ),
{
    let pair = |p: &(String, String)| (p.0.clone(), toml::Value::String(p.1.clone()));
    let row = |r: &Vec<(String, String)>| toml::Value::Table(r.iter().map(pair).collect());
    let array: Vec<toml::Value> = rows.iter().map(row).collect();
    table.insert(key.to_string(), toml::Value::Array(array));
}

/// `Map::remove` takes a key out. The other keys keep their values.
#[verifier::external_body]
pub(crate) fn take_out(table: &mut toml::map::Map<String, toml::Value>, key: &str)
    ensures
        table_entries(*final(table)) == table_entries(*old(table)).remove(key@),
{
    table.remove(key);
}

/// `toml::to_string_pretty` writes a table. Only that the text depends on keys
/// and values alone is said of it.
#[verifier::external_body]
pub(crate) fn write_table(table: &toml::map::Map<String, toml::Value>) -> (result: Result<
    String,
    String,
>)
    ensures
        match result {
            Ok(t) => toml_written(table_entries(*table)) == Ok::<Seq<char>, Seq<char>>(t@),
            Err(e) => toml_written(table_entries(*table)) == Err::<Seq<char>, Seq<char>>(e@),
        },
{
    toml::to_string_pretty(table).map_err(|e: toml::ser::Error| e.to_string())
}

} // verus!

//! TOML tables, as far as this crate reads them.
//!
//! Parsing is the `toml` crate's work.  What this crate needs from a parsed
//! table is its entries in order, each one a string, a nested table, or
//! something else; [`TomlItem`] is that shape as a plain value, and
//! [`table_contents`] names what a `toml::Table` holds in those terms.

use vstd::prelude::*;

verus! {

/// `toml::Table` is a `toml::map::Map<String, toml::Value>`.
#[verifier::external_type_specification]
#[verifier::external_body]
#[verifier::reject_recursive_types(K)]
#[verifier::reject_recursive_types(V)]
pub struct ExTomlMap<K, V>(toml::map::Map<K, V>);

/// `toml::Value`, one value in a table.
#[verifier::external_type_specification]
#[verifier::external_body]
pub struct ExTomlValue(toml::Value);

/// One value in a table, as this crate sees it.
pub enum TomlItem {
    /// A string.
    Str(Seq<char>),
    /// A nested table, with its own entries in order.
    Table(Seq<(Seq<char>, TomlItem)>),
    /// Anything else: a number, a boolean, a date, an array.
    Other,
}

/// The entries of a table, in the order the table iterates them (the order
/// of its keys, since `toml` keeps a table in a `BTreeMap`).
pub uninterp spec fn table_contents(t: toml::Table) -> Seq<(Seq<char>, TomlItem)>;

/// The entries of the document `text` parses into, or `None` when `text` is
/// not TOML (`toml::Table::from_str`).
pub uninterp spec fn toml_parse(text: Seq<char>) -> Option<Seq<(Seq<char>, TomlItem)>>;

/// `toml::de::Error::message` for the failure to parse `text`.
pub uninterp spec fn toml_message(text: Seq<char>) -> Seq<char>;

/// The `Display` text of the failure to parse `text`.
pub uninterp spec fn toml_display(text: Seq<char>) -> Seq<char>;

/// No key occurs twice, which a `BTreeMap` guarantees.
pub open spec fn distinct_keys(entries: Seq<(Seq<char>, TomlItem)>) -> bool {
    forall|i: int, j: int|
        0 <= i < entries.len() && 0 <= j < entries.len() && i != j ==> entries[i].0
            != entries[j].0
}

/// The value stored under `key`, if any.
pub open spec fn lookup(entries: Seq<(Seq<char>, TomlItem)>, key: Seq<char>) -> Option<TomlItem>
    decreases entries.len(),
{
    if entries.len() == 0 {
        None
    } else if entries[0].0 == key {
        Some(entries[0].1)
    } else {
        lookup(entries.drop_first(), key)
    }
}

/// Whether `key` is one of the keys.
pub open spec fn has_key(entries: Seq<(Seq<char>, TomlItem)>, key: Seq<char>) -> bool {
    exists|i: int| 0 <= i < entries.len() && entries[i].0 == key
}

/// A table's entry, handed out with its value sorted into the three shapes
/// this crate distinguishes.
pub enum Entry {
    /// A string value.
    Str(String),
    /// A nested table.
    Table(toml::Table),
    /// Anything else.
    Other,
}

/// What an [`Entry`] is, as a plain value.
pub open spec fn item_of(e: Entry) -> TomlItem {
    match e {
        Entry::Str(s) => TomlItem::Str(s@),
        Entry::Table(t) => TomlItem::Table(table_contents(t)),
        Entry::Other => TomlItem::Other,
    }
}

/// Parses a TOML document (`toml::Table::from_str`), reporting a failure by
/// `toml::de::Error::message`.
///
/// Claims that the result is a table exactly when `text` is TOML, that its
/// entries are what `toml_parse` names, that no key repeats, and that a
/// failure's message is what `toml_message` names.
#[verifier::external_body]
pub(crate) fn parse_table_message(text: &str) -> (r: Result<toml::Table, String>)
    ensures
        r is Ok <==> toml_parse(text@) is Some,
        r matches Ok(t) ==> table_contents(t) == toml_parse(text@)->0 && distinct_keys(
            table_contents(t),
        ),
        r matches Err(m) ==> m@ == toml_message(text@),
{
    text.parse::<toml::Table>().map_err(|err| err.message().to_string())
}

/// Parses a TOML document (`toml::Table::from_str`), reporting a failure by
/// the error's `Display` text.
///
/// Claims the same of a success as [`parse_table_message`], and that a
/// failure's text is what `toml_display` names.
#[verifier::external_body]
pub(crate) fn parse_table_display(text: &str) -> (r: Result<toml::Table, String>)
    ensures
        r is Ok <==> toml_parse(text@) is Some,
        r matches Ok(t) ==> table_contents(t) == toml_parse(text@)->0 && distinct_keys(
            table_contents(t),
        ),
        r matches Err(m) ==> m@ == toml_display(text@),
{
    text.parse::<toml::Table>().map_err(|err| format!("{err}"))
}

/// An empty table (`toml::Table::new`).
///
/// Claims that it has no entries.
#[verifier::external_body]
pub(crate) fn empty_table() -> (t: toml::Table)
    ensures
        table_contents(t) == Seq::<(Seq<char>, TomlItem)>::empty(),
{
    toml::Table::new()
}

/// Takes the nested table stored under `key` out of `t`
/// (`toml::map::Map::remove`), if the value there is a table.
///
/// Claims that the table handed back is the one the entries held under
/// `key`, that `None` means no entry under `key` holds a table, and that
/// the entry under `key`, whatever it held, is gone and the others stay in
/// their order.
#[verifier::external_body]
pub(crate) fn remove_table(t: &mut toml::Table, key: &str) -> (r: Option<toml::Table>)
    ensures
        table_contents(*final(t)) == table_contents(*old(t)).filter(
            |e: (Seq<char>, TomlItem)| e.0 != key@,
        ),
        r matches Some(inner) ==> lookup(table_contents(*old(t)), key@) == Some(
            TomlItem::Table(table_contents(inner)),
        ),
        r is None ==> !(lookup(table_contents(*old(t)), key@) matches Some(TomlItem::Table(_))),
{
    match t.remove(key) {
        Some(toml::Value::Table(inner)) => Some(inner),
        _ => None,
    }
}

/// The nested table stored under `key` in `t` (`toml::map::Map::get`, then
/// `toml::Value::as_table`), if the value there is a table.
///
/// Claims that the table handed back is the one the entries hold under
/// `key`, and that `None` means no entry under `key` holds a table.
#[verifier::external_body]
pub(crate) fn table_at<'a>(t: &'a toml::Table, key: &str) -> (r: Option<&'a toml::Table>)
    ensures
        r matches Some(inner) ==> lookup(table_contents(*t), key@) == Some(
            TomlItem::Table(table_contents(*inner)),
        ),
        r is None ==> !(lookup(table_contents(*t), key@) matches Some(TomlItem::Table(_))),
{
    t.get(key).and_then(|value| value.as_table())
}

/// Whether `t` has an entry under `key` (`toml::map::Map::contains_key`).
///
/// Claims that the answer is whether `key` is among the entries' keys.
#[verifier::external_body]
pub(crate) fn contains_key(t: &toml::Table, key: &str) -> (b: bool)
    ensures
        b == has_key(table_contents(*t), key@),
{
    t.contains_key(key)
}

/// The entries of a table, in iteration order (`toml::map::Map::iter`).
///
/// Claims that they are the entries `table_contents` names, one for one,
/// each key as it is and each value sorted into its [`Entry`] shape, and
/// that no key occurs twice, the table being a map.
#[verifier::external_body]
pub(crate) fn entries(t: &toml::Table) -> (r: Vec<(String, Entry)>)
    ensures
        forall|i: int, j: int|
            0 <= i < r@.len() && 0 <= j < r@.len() && i != j ==> r@[i].0@ != r@[j].0@,
        r@.len() == table_contents(*t).len(),
        forall|i: int|
            0 <= i < r@.len() ==> (#[trigger] r@[i]).0@ == table_contents(*t)[i].0 && item_of(
                r@[i].1,
            ) == table_contents(*t)[i].1,
{
    t.iter().map(|(key, value)| (key.clone(), match value {
        toml::Value::String(s) => Entry::Str(s.clone()),
        toml::Value::Table(inner) => Entry::Table(inner.clone()),
        _ => Entry::Other,
    })).collect()
}

} // verus!

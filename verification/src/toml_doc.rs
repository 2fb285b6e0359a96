//! One string field of a TOML document, read and written with the `toml`
//! crate.
//!
//! A configuration file is handled as its text. What the `toml` crate makes of
//! a text is named, not modelled: [`toml_read_of`] and [`toml_assign_of`] stand
//! for the results of parsing, looking up, setting and re-serializing.
use vstd::prelude::*;

verus! {

/// What a TOML document holds at `[table].key`.
#[derive(Debug, Clone, PartialEq, Eq)]
pub enum TomlField {
    /// The top level has no `table` key, or its value is not a table.
    NoTable,
    /// The table has no `key`.
    NoKey,
    /// `key` holds something other than a string.
    NotString,
    /// `key` holds this string.
    Text(String),
}

pub enum TomlFieldView {
    NoTable,
    NoKey,
    NotString,
    Text(Seq<char>),
}

impl View for TomlField {
    type V = TomlFieldView;

    open spec fn view(&self) -> TomlFieldView {
        match self {
            TomlField::NoTable => TomlFieldView::NoTable,
            TomlField::NoKey => TomlFieldView::NoKey,
            TomlField::NotString => TomlFieldView::NotString,
            TomlField::Text(s) => TomlFieldView::Text(s@),
        }
    }
}

/// Parsing `text` as a TOML document (`<toml::Value as FromStr>`): the field
/// `[table].key` and the document as `toml::to_string` writes it back; or
/// the text of the parse error.
pub uninterp spec fn toml_read_of(text: Seq<char>, table: Seq<char>, key: Seq<char>) -> Result<
    (TomlFieldView, Seq<char>),
    Seq<char>,
>;

/// The document `text` with the string `value` inserted as `key` into its
/// table `table`, as `toml::to_string` writes it; or the text of the parse
/// error.
pub uninterp spec fn toml_insert_key_of(
    text: Seq<char>,
    table: Seq<char>,
    key: Seq<char>,
    value: Seq<char>,
) -> Result<Seq<char>, Seq<char>>;

/// The document `text` with its top-level `table` replaced by a table that
/// holds only `key`, set to the string `value`, as `toml::to_string` writes
/// it; or the text of the parse error.
pub uninterp spec fn toml_insert_table_of(
    text: Seq<char>,
    table: Seq<char>,
    key: Seq<char>,
    value: Seq<char>,
) -> Result<Seq<char>, Seq<char>>;

/// The document `text` with `[table].key` set to the string `value`: into
/// the table when `table` is one, else in a new table that takes its place.
pub open spec fn toml_assign_of(
    text: Seq<char>,
    table: Seq<char>,
    key: Seq<char>,
    value: Seq<char>,
) -> Result<Seq<char>, Seq<char>> {
    match toml_read_of(text, table, key) {
        Err(m) => Err(m),
        Ok((TomlFieldView::NoTable, _)) => toml_insert_table_of(text, table, key, value),
        Ok(_) => toml_insert_key_of(text, table, key, value),
    }
}

/// Parses `text` with `<toml::Value as FromStr>::from_str`, looks up
/// `[table].key` with `Value::get`, and writes the document back with
/// `toml::to_string`. The contract names the outcome, which depends on the
/// three texts alone (the crate's tables are ordered by key), and states that
/// an empty text is the empty document, which has no `table`.
#[verifier::external_body]
pub(crate) fn toml_read(text: &str, table: &str, key: &str) -> (r: Result<(TomlField, String), String>)
    ensures
        match r {
            Ok((f, c)) => toml_read_of(text@, table@, key@) == Ok::<
                (TomlFieldView, Seq<char>),
                Seq<char>,
            >((f@, c@)),
            Err(m) => toml_read_of(text@, table@, key@) == Err::<(TomlFieldView, Seq<char>), Seq<char>>(
                m@,
            ),
        },
        text@.len() == 0 ==> r is Ok && r.unwrap().0 == TomlField::NoTable,
{
    let doc: toml::Value = text.parse().map_err(|e: toml::de::Error| e.to_string())?;
    let field = match doc.get(table) {
        Some(toml::Value::Table(t)) => match t.get(key) {
            None => TomlField::NoKey,
            Some(toml::Value::String(s)) => TomlField::Text(s.clone()),
            Some(_) => TomlField::NotString,
        },
        _ => TomlField::NoTable,
    };
    Ok((field, toml::to_string(&doc).map_err(|e| e.to_string())?))
}

/// Parses `text` with `<toml::Value as FromStr>::from_str`, inserts the
/// string `value` as `key` into the table at `table` (found with
/// `Value::get_mut`, `Table::insert`), and writes the document back with
/// `toml::to_string`. The contract names the outcome, a function of the four
/// texts alone; what reading the written text back gives is left unsaid.
#[verifier::external_body]
fn toml_insert_key(text: &str, table: &str, key: &str, value: &str) -> (r: Result<String, String>)
    ensures
        match r {
            Ok(o) => toml_insert_key_of(text@, table@, key@, value@) == Ok::<Seq<char>, Seq<char>>(
                o@,
            ),
            Err(m) => toml_insert_key_of(text@, table@, key@, value@) == Err::<Seq<char>, Seq<char>>(
                m@,
            ),
        },
{
    let mut doc: toml::Value = text.parse().map_err(|e: toml::de::Error| e.to_string())?;
    if let Some(toml::Value::Table(t)) = doc.get_mut(table) {
        t.insert(key.to_string(), toml::Value::String(value.to_string()));
    }
    toml::to_string(&doc).map_err(|e| e.to_string())
}

/// Parses `text` with `<toml::Value as FromStr>::from_str`, puts under the
/// top-level key `table` (`Table::insert`, which replaces what was there) a
/// new table holding only `key`, set to the string `value`, and writes the
/// document back with `toml::to_string`. The contract names the outcome and
/// states that an empty text is the empty document, so it always succeeds;
/// what reading the written text back gives is left unsaid.
#[verifier::external_body]
fn toml_insert_table(text: &str, table: &str, key: &str, value: &str) -> (r: Result<String, String>)
    ensures
        match r {
            Ok(o) => toml_insert_table_of(text@, table@, key@, value@) == Ok::<Seq<char>, Seq<char>>(
                o@,
            ),
            Err(m) => toml_insert_table_of(text@, table@, key@, value@) == Err::<
                Seq<char>,
                Seq<char>,
            >(m@),
        },
        text@.len() == 0 ==> r is Ok,
{
    let mut doc: toml::Value = text.parse().map_err(|e: toml::de::Error| e.to_string())?;
    if let toml::Value::Table(root) = &mut doc {
        let mut t = toml::Table::new();
        t.insert(key.to_string(), toml::Value::String(value.to_string()));
        root.insert(table.to_string(), toml::Value::Table(t));
    }
    toml::to_string(&doc).map_err(|e| e.to_string())
}

/// Sets `[table].key` of the document `text` to the string `value`: into the
/// table when `table` is one, else in a new table that takes its place. An
/// empty text always succeeds.
pub(crate) fn toml_assign(text: &str, table: &str, key: &str, value: &str) -> (r: Result<
    String,
    String,
>)
    ensures
        match r {
            Ok(o) => toml_assign_of(text@, table@, key@, value@) == Ok::<Seq<char>, Seq<char>>(o@),
            Err(m) => toml_assign_of(text@, table@, key@, value@) == Err::<Seq<char>, Seq<char>>(m@),
        },
        text@.len() == 0 ==> r is Ok,
{
    match toml_read(text, table, key) {
        Err(m) => Err(m),
        Ok((TomlField::NoTable, _)) => toml_insert_table(text, table, key, value),
        Ok(_) => toml_insert_key(text, table, key, value),
    }
}

} // verus!

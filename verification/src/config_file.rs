//! Edits of the configuration file's text: adding a `[[sync]]` entry, adding a
//! project, renaming a project. The `toml` crate reads and writes the TOML.
use vstd::prelude::*;
use crate::config::project_pairs;
use crate::text::{chars_of, push_all, string_from_chars};

verus! {

/// What a TOML document holds under a top-level key.
#[derive(Debug, Clone, Copy, PartialEq, Eq, Structural)]
pub enum KeyKind {
    Absent,
    Array,
    Table,
    Other,
}

/// What `text.parse::<toml::Value>()` holds under the top-level `key`; `None`
/// where `toml` does not read the text as a document.
pub uninterp spec fn toml_key_kind(text: Seq<char>, key: Seq<char>) -> Option<KeyKind>;

/// What `toml::to_string_pretty` writes for the document `text` after a table
/// of the string fields `entry` was appended to the array under `key` (or put
/// there in a new array where `key` was absent); `None` where `toml` does not
/// read or write it.
pub uninterp spec fn toml_with_array_entry(
    text: Seq<char>,
    key: Seq<char>,
    entry: Seq<(Seq<char>, Seq<char>)>,
) -> Option<Seq<char>>;

/// What `toml::to_string_pretty` writes for the document `text` after the
/// string `value` was inserted as `name` into the table under `key`; `None`
/// where `toml` does not read or write it.
pub uninterp spec fn toml_with_table_entry(
    text: Seq<char>,
    key: Seq<char>,
    name: Seq<char>,
    value: Seq<char>,
) -> Option<Seq<char>>;

/// What `toml::to_string_pretty` writes for the document `text` after `old`
/// was removed from the table under `key` and the string `value` inserted as
/// `name`; `None` where `toml` does not read or write it.
pub uninterp spec fn toml_with_table_entry_renamed(
    text: Seq<char>,
    key: Seq<char>,
    old: Seq<char>,
    name: Seq<char>,
    value: Seq<char>,
) -> Option<Seq<char>>;

/// What `toml::to_string_pretty` writes for the document `text` as `toml`
/// reads it; `None` where `toml` does not read or write it.
pub uninterp spec fn toml_pretty(text: Seq<char>) -> Option<Seq<char>>;

/// `str::parse::<toml::Value>` and `Value::get(key)`: the kind of value under
/// `key`, or the parser's message where `toml` refuses the text. The contract
/// names the kind and says nothing of the message.
#[verifier::external_body]
fn key_kind(text: &str, key: &str) -> (r: Result<KeyKind, String>)
    ensures
        r is Ok <==> toml_key_kind(text@, key@) is Some,
        r matches Ok(k) ==> toml_key_kind(text@, key@) == Some(k),
{
    match text.parse::<toml::Value>() {
        Err(e) => Err(e.to_string()),
        Ok(doc) => Ok(match doc.get(key) {
            None => KeyKind::Absent,
            Some(toml::Value::Array(_)) => KeyKind::Array,
            Some(toml::Value::Table(_)) => KeyKind::Table,
            Some(_) => KeyKind::Other,
        }),
    }
}

/// `str::parse::<toml::Value>`, `Vec::push` of a table of the fields onto the
/// array under `key` (or `Table::insert` of a new array), then
/// `toml::to_string_pretty`. The contract names the result.
#[verifier::external_body]
fn with_array_entry(text: &str, key: &str, entry: &Vec<(String, String)>) -> (r: Option<String>)
    requires
        toml_key_kind(text@, key@) == Some(KeyKind::Absent) || toml_key_kind(text@, key@) == Some(KeyKind::Array),
    ensures
        toml_with_array_entry(text@, key@, project_pairs(entry@)) == (match r {
            Some(s) => Some(s@),
            None => None,
        }),
{
    let mut doc = text.parse::<toml::Value>().ok()?;
    let table: toml::value::Table = entry.iter().map(|(k, v)| (k.clone(), toml::Value::String(v.clone()))).collect();
    match doc.get_mut(key) {
        Some(toml::Value::Array(arr)) => arr.push(toml::Value::Table(table)),
        None => {
            doc.as_table_mut()?.insert(key.to_string(), toml::Value::Array(vec![toml::Value::Table(table)]));
        },
        Some(_) => return None,
    }
    toml::to_string_pretty(&doc).ok()
}

/// `str::parse::<toml::Value>`, `Table::insert(name, value)` into the table
/// under `key`, then `toml::to_string_pretty`. The contract names the result.
#[verifier::external_body]
fn with_table_entry(text: &str, key: &str, name: &str, value: &str) -> (r: Option<String>)
    requires
        toml_key_kind(text@, key@) == Some(KeyKind::Table),
    ensures
        toml_with_table_entry(text@, key@, name@, value@) == (match r {
            Some(s) => Some(s@),
            None => None,
        }),
{
    let mut doc = text.parse::<toml::Value>().ok()?;
    match doc.get_mut(key) {
        Some(toml::Value::Table(t)) => t.insert(name.to_string(), toml::Value::String(value.to_string())),
        _ => return None,
    };
    toml::to_string_pretty(&doc).ok()
}

/// `str::parse::<toml::Value>`, `Table::remove(old)` and
/// `Table::insert(name, value)` in the table under `key`, then
/// `toml::to_string_pretty`. The contract names the result.
#[verifier::external_body]
fn with_table_entry_renamed(text: &str, key: &str, old: &str, name: &str, value: &str) -> (r: Option<String>)
    requires
        toml_key_kind(text@, key@) == Some(KeyKind::Table),
    ensures
        toml_with_table_entry_renamed(text@, key@, old@, name@, value@) == (match r {
            Some(s) => Some(s@),
            None => None,
        }),
{
    let mut doc = text.parse::<toml::Value>().ok()?;
    if let Some(toml::Value::Table(t)) = doc.get_mut(key) {
        t.remove(old);
        t.insert(name.to_string(), toml::Value::String(value.to_string()));
    }
    toml::to_string_pretty(&doc).ok()
}

/// `str::parse::<toml::Value>` then `toml::to_string_pretty`. The contract
/// names the result.
#[verifier::external_body]
fn pretty(text: &str) -> (r: Option<String>)
    ensures
        toml_pretty(text@) == (match r {
            Some(s) => Some(s@),
            None => None,
        }),
{
    toml::to_string_pretty(&text.parse::<toml::Value>().ok()?).ok()
}

/// Why the configuration text could not be edited.
#[derive(Debug, Clone)]
pub enum ConfigEditError {
    /// The text is not TOML; the parser's message.
    NotToml(String),
    /// `sync` holds something other than an array.
    SyncNotArray,
    /// `toml` could not write the edited document.
    Unwritable,
}

pub open spec fn config_edit_error_text(e: ConfigEditError) -> Seq<char> {
    match e {
        ConfigEditError::NotToml(m) => "Failed to parse config as TOML: "@ + m@,
        ConfigEditError::SyncNotArray => "'sync' key in config is not an array"@,
        ConfigEditError::Unwritable => "Failed to write config as TOML"@,
    }
}

impl ConfigEditError {
    /// The error as a sentence.
    pub fn message(&self) -> (r: String)
        ensures
            r@ == config_edit_error_text(*self),
    {
        match self {
            ConfigEditError::NotToml(m) => {
                let mut out = chars_of("Failed to parse config as TOML: ");
                let a = chars_of(m.as_str());
                push_all(&mut out, &a);
                string_from_chars(&out)
            },
            ConfigEditError::SyncNotArray => "'sync' key in config is not an array".to_string(),
            ConfigEditError::Unwritable => "Failed to write config as TOML".to_string(),
        }
    }
}

/// The fields of a `[[sync]]` entry.
pub open spec fn sync_entry(project: Seq<char>, provider: Seq<char>, repo: Seq<char>) -> Seq<(Seq<char>, Seq<char>)> {
    seq![("project"@, project), ("provider"@, provider), ("repo"@, repo)]
}

/// The written text, or `Unwritable`.
pub open spec fn written(t: Option<Seq<char>>, r: Result<String, ConfigEditError>) -> bool {
    match t {
        Some(s) => r matches Ok(x) && x@ == s,
        None => r matches Err(ConfigEditError::Unwritable),
    }
}

fn written_text(t: Option<String>) -> (r: Result<String, ConfigEditError>)
    ensures
        written(
            match t {
                Some(s) => Some(s@),
                None => None,
            },
            r,
        ),
{
    match t {
        Some(s) => Ok(s),
        None => Err(ConfigEditError::Unwritable),
    }
}

/// The configuration text with a `[[sync]]` entry (project, provider,
/// repository) added: appended to the `sync` array, or as a new array where
/// there is no `sync` key. Fails where the text is not TOML or `sync` is not an
/// array.
pub fn append_sync_text(text: &str, project: &str, provider: &str, repo: &str) -> (r: Result<
    String,
    ConfigEditError,
>)
    ensures
        toml_key_kind(text@, "sync"@) is None ==> r matches Err(ConfigEditError::NotToml(_)),
        toml_key_kind(text@, "sync"@) == Some(KeyKind::Table) || toml_key_kind(text@, "sync"@) == Some(
            KeyKind::Other,
        ) ==> r matches Err(ConfigEditError::SyncNotArray),
        toml_key_kind(text@, "sync"@) == Some(KeyKind::Absent) || toml_key_kind(text@, "sync"@) == Some(
            KeyKind::Array,
        ) ==> written(toml_with_array_entry(text@, "sync"@, sync_entry(project@, provider@, repo@)), r),
{
    match key_kind(text, "sync") {
        Err(m) => Err(ConfigEditError::NotToml(m)),
        Ok(KeyKind::Table) | Ok(KeyKind::Other) => Err(ConfigEditError::SyncNotArray),
        Ok(_) => {
            let entry = vec![
                ("project".to_string(), project.to_string()),
                ("provider".to_string(), provider.to_string()),
                ("repo".to_string(), repo.to_string()),
            ];
            assert(project_pairs(entry@) =~= sync_entry(project@, provider@, repo@));
            written_text(with_array_entry(text, "sync", &entry))
        },
    }
}

/// The configuration text with the project `name = "prefix"` added to the
/// `projects` table; where `projects` is not a table, the text as `toml`
/// rewrites it. Fails where the text is not TOML.
pub fn add_project_text(text: &str, name: &str, prefix: &str) -> (r: Result<String, ConfigEditError>)
    ensures
        toml_key_kind(text@, "projects"@) is None ==> r matches Err(ConfigEditError::NotToml(_)),
        toml_key_kind(text@, "projects"@) == Some(KeyKind::Table) ==> written(
            toml_with_table_entry(text@, "projects"@, name@, prefix@),
            r,
        ),
        toml_key_kind(text@, "projects"@) is Some && toml_key_kind(text@, "projects"@) != Some(KeyKind::Table)
            ==> written(toml_pretty(text@), r),
{
    match key_kind(text, "projects") {
        Err(m) => Err(ConfigEditError::NotToml(m)),
        Ok(KeyKind::Table) => written_text(with_table_entry(text, "projects", name, prefix)),
        Ok(_) => written_text(pretty(text)),
    }
}

/// The configuration text with the project `old_name` replaced by
/// `new_name = "new_prefix"` in the `projects` table; where `projects` is not a
/// table, the text as `toml` rewrites it. Fails where the text is not TOML.
pub fn rename_project_text(text: &str, old_name: &str, new_name: &str, new_prefix: &str) -> (r: Result<
    String,
    ConfigEditError,
>)
    ensures
        toml_key_kind(text@, "projects"@) is None ==> r matches Err(ConfigEditError::NotToml(_)),
        toml_key_kind(text@, "projects"@) == Some(KeyKind::Table) ==> written(
            toml_with_table_entry_renamed(text@, "projects"@, old_name@, new_name@, new_prefix@),
            r,
        ),
        toml_key_kind(text@, "projects"@) is Some && toml_key_kind(text@, "projects"@) != Some(KeyKind::Table)
            ==> written(toml_pretty(text@), r),
{
    match key_kind(text, "projects") {
        Err(m) => Err(ConfigEditError::NotToml(m)),
        Ok(KeyKind::Table) => written_text(with_table_entry_renamed(text, "projects", old_name, new_name, new_prefix)),
        Ok(_) => written_text(pretty(text)),
    }
}

} // verus!

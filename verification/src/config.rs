//! Optional per-repo config at `{repo}/.sprout/config.json`.
//!
//! It holds a single key, `base`: the branch that new worktrees are created
//! from when none is asked for.
//!
//! ```json
//! { "base": "development" }
//! ```
use crate::path::{join, joined};
use crate::repo::{namespace, repo_namespace};
use crate::text::{from_utf8_lossy, shown};
use vstd::prelude::*;
use vstd::string::*;
use vstd::utf8::encode_utf8;

verus! {

/// The name of the config file.
pub const FILE: &'static str = "config.json";

/// The key for the default base.
pub const BASE_KEY: &'static str = "base";

/// A parsed JSON document.
#[verifier::external_type_specification]
#[verifier::external_body]
pub struct ExValue(serde_json::Value);

/// A member of a JSON object, as far as the config tells values apart.
pub enum Member {
    Null,
    Text(Seq<char>),
    Other,
}

/// A member of a JSON object, as a value.
pub enum Field {
    Null,
    Text(String),
    /// A boolean, a number, an array or an object.
    Other,
}

impl View for Field {
    type V = Member;

    open spec fn view(&self) -> Member {
        match self {
            Field::Null => Member::Null,
            Field::Text(s) => Member::Text(s@),
            Field::Other => Member::Other,
        }
    }
}

/// The members of a JSON object; none for a document of another kind.
pub uninterp spec fn members(value: serde_json::Value) -> Map<Seq<char>, Member>;

/// What `serde_json` reads a text as: the members of the object that it is, or
/// the message for a text that is not JSON.
pub uninterp spec fn parsed(text: Seq<char>) -> Result<Map<Seq<char>, Member>, Seq<char>>;

/// `serde_json::from_str`: the outcome is a function of the text alone.
#[verifier::external_body]
fn parse_json(text: &str) -> (r: Result<serde_json::Value, String>)
    ensures
        match r {
            Ok(value) => parsed(text@) == Ok::<Map<Seq<char>, Member>, Seq<char>>(members(value)),
            Err(message) => parsed(text@) == Err::<Map<Seq<char>, Member>, Seq<char>>(message@),
        },
{
    serde_json::from_str::<serde_json::Value>(text).map_err(|e| e.to_string())
}

/// `serde_json::Value::get` by a key: the member of that name, and nothing
/// where the document is no object or has no such member.
#[verifier::external_body]
fn get_member(value: &serde_json::Value, key: &str) -> (r: Option<Field>)
    ensures
        r is Some <==> members(*value).contains_key(key@),
        r matches Some(field) ==> field@ == members(*value)[key@],
{
    value.get(key).map(|v| match v {
        serde_json::Value::Null => Field::Null,
        serde_json::Value::Bool(_) => Field::Other,
        serde_json::Value::Number(_) => Field::Other,
        serde_json::Value::String(s) => Field::Text(s.clone()),
        serde_json::Value::Array(_) => Field::Other,
        serde_json::Value::Object(_) => Field::Other,
    })
}

/// What is wrong with a config.
pub enum ConfigError {
    /// The text is not JSON, for this reason.
    Malformed(String),
    /// The base is there, and is neither null nor a non-empty string.
    BadBase,
}

/// The member that a document has under a key.
pub open spec fn member_at(all: Map<Seq<char>, Member>, key: Seq<char>) -> Option<Member> {
    if all.contains_key(key) {
        Some(all[key])
    } else {
        None
    }
}

/// Whether `r` is the base that a member under the key `base` sets: none where
/// it is absent or null, and an error where it is not a non-empty string.
pub open spec fn is_base_of(member: Option<Member>, r: Result<Option<String>, ConfigError>) -> bool {
    match member {
        None => r matches Ok(None),
        Some(Member::Null) => r matches Ok(None),
        Some(Member::Text(s)) => if s.len() > 0 {
            r matches Ok(Some(b)) && b@ == s
        } else {
            r matches Err(ConfigError::BadBase)
        },
        Some(Member::Other) => r matches Err(ConfigError::BadBase),
    }
}

/// The member that an optional field stands for.
pub open spec fn field_view(field: Option<Field>) -> Option<Member> {
    match field {
        Some(f) => Some(f@),
        None => None,
    }
}

/// The base that the member under the key `base` sets.
pub fn base_of(field: Option<Field>) -> (r: Result<Option<String>, ConfigError>)
    ensures
        is_base_of(field_view(field), r),
{
    match field {
        None => Ok(None),
        Some(Field::Null) => Ok(None),
        Some(Field::Text(s)) => if s.as_str().is_empty() {
            Err(ConfigError::BadBase)
        } else {
            Ok(Some(s))
        },
        Some(Field::Other) => Err(ConfigError::BadBase),
    }
}

/// The configured default base, if the config sets one. No config, and no
/// base or a null one in it, mean none; malformed JSON and a base that is not
/// a non-empty string are errors, so that a typo never quietly does nothing.
pub fn base(text: Option<&str>) -> (r: Result<Option<String>, ConfigError>)
    ensures
        match text {
            None => r matches Ok(None),
            Some(t) => match parsed(t@) {
                Ok(all) => is_base_of(member_at(all, BASE_KEY@), r),
                Err(message) => r matches Err(ConfigError::Malformed(m)) && m@ == message,
            },
        },
{
    match text {
        None => Ok(None),
        Some(t) => match parse_json(t) {
            Ok(value) => base_of(get_member(&value, BASE_KEY)),
            Err(message) => Err(ConfigError::Malformed(message)),
        },
    }
}

/// The path of the config of a repository.
pub fn config_file(main_root: &[u8]) -> (r: Vec<u8>)
    ensures
        r@ == joined(namespace(main_root@), encode_utf8(FILE@)),
{
    join(repo_namespace(main_root).as_slice(), FILE.as_bytes())
}

impl ConfigError {
    /// The message for the user, which names the file.
    pub fn describe(&self, file: &[u8]) -> (r: String)
        ensures
            r@ == (match self {
                ConfigError::Malformed(_) => "failed to parse "@ + shown(file@),
                ConfigError::BadBase => "\"base\" in "@ + shown(file@)
                    + " must be a non-empty string"@,
            }),
    {
        let shown = from_utf8_lossy(file);
        match self {
            ConfigError::Malformed(_) => {
                let mut r = "failed to parse ".to_owned();
                r.append(shown.as_str());
                r
            },
            ConfigError::BadBase => {
                let mut r = "\"base\" in ".to_owned();
                r.append(shown.as_str());
                r.append(" must be a non-empty string");
                r
            },
        }
    }
}

/// What the config says about the base: nothing where the key is missing or
/// null, the text where that is not empty, and an error in every other case.
pub proof fn lemma_base_read(member: Option<Member>, r: Result<Option<String>, ConfigError>)
    requires
        is_base_of(member, r),
    ensures
        member is None || member == Some(Member::Null) ==> r matches Ok(None),
        member matches Some(Member::Text(s)) ==> {
            &&& s.len() > 0 ==> (r matches Ok(Some(b)) && b@ == s)
            &&& s.len() == 0 ==> r matches Err(ConfigError::BadBase)
        },
        member == Some(Member::Other) ==> r matches Err(ConfigError::BadBase),
{
}

/// A document has under a key what stands there, and nothing under any other.
pub proof fn lemma_member(all: Map<Seq<char>, Member>, key: Seq<char>, other: Seq<char>, member: Member)
    ensures
        member_at(all.insert(key, member), key) == Some(member),
        key != other ==> member_at(all.insert(key, member), other) == member_at(all, other),
        member_at(all.remove(key), key) is None,
        BASE_KEY@ == "base"@,
        FILE@ == "config.json"@,
{
}

/// A field that is there stands for what it holds, and one that is not for
/// nothing.
pub proof fn lemma_field_view(field: Field, text: String)
    ensures
        field_view(Some(field)) == Some(field@),
        field_view(Some(Field::Text(text))) == Some(Member::Text(text@)),
        field_view(Some(Field::Null)) == Some(Member::Null),
        field_view(Some(Field::Other)) == Some(Member::Other),
        field_view(None) is None,
{
}

} // verus!

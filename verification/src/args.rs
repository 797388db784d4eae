//! The arguments of a tool call: a JSON object, read field by field.
use vstd::prelude::*;

use crate::text;

verus! {

/// A JSON value of `serde_json`.
#[verifier::external_type_specification]
#[verifier::external_body]
pub struct ExValue(serde_json::Value);

/// What an argument holds, as far as the tools look into it.
#[derive(Debug)]
pub enum ArgValue {
    Null,
    Bool(bool),
    /// A number: as text, and as a non-negative integer where it is one.
    Number { text: String, unsigned: Option<u64> },
    Text(String),
    Array,
    Object,
}

/// An argument over texts.
pub enum ArgView {
    Null,
    Bool(bool),
    Number { text: Seq<char>, unsigned: Option<u64> },
    Text(Seq<char>),
    Array,
    Object,
}

impl DeepView for ArgValue {
    type V = ArgView;

    open spec fn deep_view(&self) -> ArgView {
        match *self {
            ArgValue::Null => ArgView::Null,
            ArgValue::Bool(b) => ArgView::Bool(b),
            ArgValue::Number { text, unsigned } => ArgView::Number { text: text@, unsigned },
            ArgValue::Text(s) => ArgView::Text(s@),
            ArgValue::Array => ArgView::Array,
            ArgValue::Object => ArgView::Object,
        }
    }
}

/// The fields of a JSON object; a value that is no object has none.
pub uninterp spec fn fields(v: serde_json::Value) -> Map<Seq<char>, ArgView>;

/// What the field `key` of a JSON value holds; `Null` where there is none.
pub open spec fn field(v: serde_json::Value, key: Seq<char>) -> ArgView {
    if fields(v).contains_key(key) {
        fields(v)[key]
    } else {
        ArgView::Null
    }
}

/// Reads a field of a JSON value by `serde_json`'s index operator, which gives
/// `Null` for a field that is absent and for a value that is no object.
#[verifier::external_body]
pub(crate) fn read_field(args: &serde_json::Value, key: &str) -> (r: ArgValue)
    ensures
        r.deep_view() == (if fields(*args).contains_key(key@) {
            fields(*args)[key@]
        } else {
            ArgView::Null
        }),
{
    match &args[key] {
        serde_json::Value::Null => ArgValue::Null,
        serde_json::Value::Bool(b) => ArgValue::Bool(*b),
        serde_json::Value::Number(n) => ArgValue::Number {
            text: n.to_string(),
            unsigned: n.as_u64(),
        },
        serde_json::Value::String(s) => ArgValue::Text(s.clone()),
        serde_json::Value::Array(_) => ArgValue::Array,
        serde_json::Value::Object(_) => ArgValue::Object,
    }
}

/// What messages call the kind of a value.
pub open spec fn kind_name(v: ArgView) -> Seq<char> {
    match v {
        ArgView::Null => "null"@,
        ArgView::Bool(_) => "boolean"@,
        ArgView::Number { .. } => "number"@,
        ArgView::Text(_) => "string"@,
        ArgView::Array => "array"@,
        ArgView::Object => "object"@,
    }
}

fn kind_of(v: &ArgValue) -> (r: &'static str)
    ensures
        r@ == kind_name(v.deep_view()),
{
    match v {
        ArgValue::Null => "null",
        ArgValue::Bool(_) => "boolean",
        ArgValue::Number { .. } => "number",
        ArgValue::Text(_) => "string",
        ArgValue::Array => "array",
        ArgValue::Object => "object",
    }
}

/// The text that an argument must hold.
pub open spec fn required_text(v: ArgView, key: Seq<char>) -> Result<Seq<char>, Seq<char>> {
    match v {
        ArgView::Text(s) => Ok(s),
        ArgView::Null => Err("Missing required parameter: '"@ + key + "' (expected string)"@),
        _ => Err("Parameter '"@ + key + "' must be a string, got "@ + kind_name(v)),
    }
}

/// The text that an argument holds, as it was read.
pub fn text_required(v: ArgValue, key: &str) -> (r: Result<String, String>)
    ensures
        text::result_view(r) == required_text(v.deep_view(), key@),
{
    match v {
        ArgValue::Text(s) => Ok(s),
        ArgValue::Null => Err(
            "Missing required parameter: '".to_owned().concat(key).concat("' (expected string)"),
        ),
        other => Err(
            "Parameter '".to_owned().concat(key).concat("' must be a string, got ").concat(
                kind_of(&other),
            ),
        ),
    }
}

/// The text that the argument `key` holds; an error where it holds none.
pub fn require_str(args: &serde_json::Value, key: &str) -> (r: Result<String, String>)
    ensures
        text::result_view(r) == required_text(field(*args, key@), key@),
{
    text_required(read_field(args, key), key)
}

/// The non-negative integer that an argument must hold.
pub open spec fn required_number(v: ArgView, key: Seq<char>) -> Result<u64, Seq<char>> {
    match v {
        ArgView::Number { text, unsigned } => match unsigned {
            Some(n) => Ok(n),
            None => Err("Parameter '"@ + key + "' must be a non-negative integer, got "@ + text),
        },
        ArgView::Null => Err("Missing required parameter: '"@ + key + "' (expected integer)"@),
        _ => Err("Parameter '"@ + key + "' must be an integer, got "@ + kind_name(v)),
    }
}

/// The non-negative integer that an argument holds, as it was read.
pub fn number_required(v: ArgValue, key: &str) -> (r: Result<u64, String>)
    ensures
        text::result_view(r) == required_number(v.deep_view(), key@),
{
    match v {
        ArgValue::Number { text, unsigned } => match unsigned {
            Some(n) => Ok(n),
            None => Err(
                "Parameter '".to_owned().concat(key).concat(
                    "' must be a non-negative integer, got ",
                ).concat(&text),
            ),
        },
        ArgValue::Null => Err(
            "Missing required parameter: '".to_owned().concat(key).concat("' (expected integer)"),
        ),
        other => Err(
            "Parameter '".to_owned().concat(key).concat("' must be an integer, got ").concat(
                kind_of(&other),
            ),
        ),
    }
}

/// The non-negative integer that the argument `key` holds; an error where it
/// holds none.
pub fn require_u64(args: &serde_json::Value, key: &str) -> (r: Result<u64, String>)
    ensures
        text::result_view(r) == required_number(field(*args, key@), key@),
{
    number_required(read_field(args, key), key)
}

/// The text that an argument may hold.
pub open spec fn optional_text(v: ArgView, key: Seq<char>) -> Result<Option<Seq<char>>, Seq<char>> {
    match v {
        ArgView::Null => Ok(None),
        ArgView::Text(s) => Ok(Some(s)),
        _ => Err("Parameter '"@ + key + "' must be a string if present, got "@ + kind_name(v)),
    }
}

/// The text that an argument may hold, as it was read.
pub fn text_optional(v: ArgValue, key: &str) -> (r: Result<Option<String>, String>)
    ensures
        text::result_view(r) == optional_text(v.deep_view(), key@),
{
    match v {
        ArgValue::Null => Ok(None),
        ArgValue::Text(s) => Ok(Some(s)),
        other => Err(
            "Parameter '".to_owned().concat(key).concat(
                "' must be a string if present, got ",
            ).concat(kind_of(&other)),
        ),
    }
}

/// The text that the argument `key` holds, `None` where it is absent; an error
/// where it holds something else.
pub fn opt_str(args: &serde_json::Value, key: &str) -> (r: Result<Option<String>, String>)
    ensures
        text::result_view(r) == optional_text(field(*args, key@), key@),
{
    text_optional(read_field(args, key), key)
}

/// The non-negative integer that an argument may hold.
pub open spec fn optional_number(v: ArgView, key: Seq<char>) -> Result<Option<u64>, Seq<char>> {
    match v {
        ArgView::Null => Ok(None),
        ArgView::Number { text, unsigned } => match unsigned {
            Some(n) => Ok(Some(n)),
            None => Err("Parameter '"@ + key + "' must be a non-negative integer, got "@ + text),
        },
        _ => Err("Parameter '"@ + key + "' must be an integer if present, got "@ + kind_name(v)),
    }
}

/// The non-negative integer that an argument may hold, as it was read.
pub fn number_optional(v: ArgValue, key: &str) -> (r: Result<Option<u64>, String>)
    ensures
        text::result_view(r) == optional_number(v.deep_view(), key@),
{
    match v {
        ArgValue::Null => Ok(None),
        ArgValue::Number { text, unsigned } => match unsigned {
            Some(n) => Ok(Some(n)),
            None => Err(
                "Parameter '".to_owned().concat(key).concat(
                    "' must be a non-negative integer, got ",
                ).concat(&text),
            ),
        },
        other => Err(
            "Parameter '".to_owned().concat(key).concat(
                "' must be an integer if present, got ",
            ).concat(kind_of(&other)),
        ),
    }
}

/// The non-negative integer that the argument `key` holds, `None` where it is
/// absent; an error where it holds something else.
pub fn opt_u64(args: &serde_json::Value, key: &str) -> (r: Result<Option<u64>, String>)
    ensures
        text::result_view(r) == optional_number(field(*args, key@), key@),
{
    number_optional(read_field(args, key), key)
}

/// The text of a value, or `default` where it is none.
pub open spec fn text_or(v: ArgView, default: Seq<char>) -> Seq<char> {
    match v {
        ArgView::Text(s) => s,
        _ => default,
    }
}

/// The text that the argument `key` holds, or `default`.
pub fn get_str_or(args: &serde_json::Value, key: &str, default: &str) -> (r: String)
    ensures
        r@ == text_or(field(*args, key@), default@),
{
    match read_field(args, key) {
        ArgValue::Text(s) => s,
        _ => default.to_owned(),
    }
}

/// The non-negative integer of a value, or `default` where it is none.
pub open spec fn number_or(v: ArgView, default: u64) -> u64 {
    match v {
        ArgView::Number { text, unsigned } => match unsigned {
            Some(n) => n,
            None => default,
        },
        _ => default,
    }
}

/// The non-negative integer that the argument `key` holds, or `default`.
pub fn get_u64_or(args: &serde_json::Value, key: &str, default: u64) -> (r: u64)
    ensures
        r == number_or(field(*args, key@), default),
{
    match read_field(args, key) {
        ArgValue::Number { text: _, unsigned } => match unsigned {
            Some(n) => n,
            None => default,
        },
        _ => default,
    }
}

/// A required text is handed on as it was given, and refused exactly where the argument
/// is no text.
pub proof fn required_text_is_handed_on(v: ArgView, key: Seq<char>)
    ensures
        required_text(v, key) is Ok <==> v is Text,
        v matches ArgView::Text(s) ==> required_text(v, key) == Ok::<Seq<char>, Seq<char>>(s),
{
}

/// A required number is handed on as it was given, and refused exactly where the argument
/// is no non-negative integer.
pub proof fn required_number_is_handed_on(v: ArgView, key: Seq<char>)
    ensures
        required_number(v, key) is Ok <==> (v matches ArgView::Number { unsigned, .. }
            && unsigned is Some),
        v matches ArgView::Number { unsigned: Some(n), .. } ==> required_number(v, key) == Ok::<
            u64,
            Seq<char>,
        >(n),
{
}

/// An optional argument may be absent; one that is there is handed on as it was given, or
/// refused where it is of another kind.
pub proof fn optional_arguments_may_be_absent(v: ArgView, key: Seq<char>)
    ensures
        v is Null ==> optional_text(v, key) == Ok::<Option<Seq<char>>, Seq<char>>(None)
            && optional_number(v, key) == Ok::<Option<u64>, Seq<char>>(None),
        v !is Null ==> match required_text(v, key) {
            Ok(s) => optional_text(v, key) == Ok::<Option<Seq<char>>, Seq<char>>(Some(s)),
            Err(_) => optional_text(v, key) is Err,
        },
        v !is Null ==> match required_number(v, key) {
            Ok(n) => optional_number(v, key) == Ok::<Option<u64>, Seq<char>>(Some(n)),
            Err(_) => optional_number(v, key) is Err,
        },
{
}

/// A default stands in exactly where a required argument would be refused.
pub proof fn defaults_stand_in(v: ArgView, key: Seq<char>, text: Seq<char>, n: u64)
    ensures
        text_or(v, text) == match required_text(v, key) {
            Ok(s) => s,
            Err(_) => text,
        },
        number_or(v, n) == match required_number(v, key) {
            Ok(m) => m,
            Err(_) => n,
        },
{
}

/// A refusal names the argument: its key stands between quotes in the message.
pub proof fn refusals_name_the_argument(v: ArgView, key: Seq<char>)
    ensures
        required_text(v, key) matches Err(e) ==> text::has_text(e, "'"@ + key + "'"@),
        required_number(v, key) matches Err(e) ==> text::has_text(e, "'"@ + key + "'"@),
        optional_text(v, key) matches Err(e) ==> text::has_text(e, "'"@ + key + "'"@),
        optional_number(v, key) matches Err(e) ==> text::has_text(e, "'"@ + key + "'"@),
{
    lemma_key_named(key, kind_name(v));
    match v {
        ArgView::Number { text, unsigned } => {
            lemma_key_named(key, text);
        },
        _ => {},
    }
}

proof fn lemma_quoted_key(head: Seq<char>, key: Seq<char>, tail: Seq<char>)
    requires
        head.len() > 0,
        head.last() == '\'',
        tail.len() > 0,
        tail[0] == '\'',
    ensures
        text::has_text(head + key + tail, "'"@ + key + "'"@),
{
    reveal_strlit("'");
    let s = head + key + tail;
    let p = "'"@ + key + "'"@;
    let k = head.len() - 1;
    assert(s.subrange(k, k + p.len()) =~= p);
    assert(text::occurs_at(s, p, k));
}

proof fn lemma_key_named(key: Seq<char>, x: Seq<char>)
    ensures
        text::has_text(
            "Missing required parameter: '"@ + key + "' (expected string)"@,
            "'"@ + key + "'"@,
        ),
        text::has_text(
            "Missing required parameter: '"@ + key + "' (expected integer)"@,
            "'"@ + key + "'"@,
        ),
        text::has_text("Parameter '"@ + key + "' must be a string, got "@ + x, "'"@ + key + "'"@),
        text::has_text(
            "Parameter '"@ + key + "' must be a non-negative integer, got "@ + x,
            "'"@ + key + "'"@,
        ),
        text::has_text("Parameter '"@ + key + "' must be an integer, got "@ + x, "'"@ + key + "'"@),
        text::has_text(
            "Parameter '"@ + key + "' must be a string if present, got "@ + x,
            "'"@ + key + "'"@,
        ),
        text::has_text(
            "Parameter '"@ + key + "' must be an integer if present, got "@ + x,
            "'"@ + key + "'"@,
        ),
{
    reveal_strlit("Missing required parameter: '");
    reveal_strlit("Parameter '");
    reveal_strlit("' (expected string)");
    reveal_strlit("' (expected integer)");
    reveal_strlit("' must be a string, got ");
    reveal_strlit("' must be a non-negative integer, got ");
    reveal_strlit("' must be an integer, got ");
    reveal_strlit("' must be a string if present, got ");
    reveal_strlit("' must be an integer if present, got ");
    let missing = "Missing required parameter: '"@;
    let p = "Parameter '"@;
    lemma_quoted_key(missing, key, "' (expected string)"@);
    lemma_quoted_key(missing, key, "' (expected integer)"@);
    lemma_quoted_key(p, key, "' must be a string, got "@ + x);
    lemma_quoted_key(p, key, "' must be a non-negative integer, got "@ + x);
    lemma_quoted_key(p, key, "' must be an integer, got "@ + x);
    lemma_quoted_key(p, key, "' must be a string if present, got "@ + x);
    lemma_quoted_key(p, key, "' must be an integer if present, got "@ + x);
    assert(p + key + ("' must be a string, got "@ + x) =~= p + key + "' must be a string, got "@
        + x);
    assert(p + key + ("' must be a non-negative integer, got "@ + x) =~= p + key
        + "' must be a non-negative integer, got "@ + x);
    assert(p + key + ("' must be an integer, got "@ + x) =~= p + key
        + "' must be an integer, got "@ + x);
    assert(p + key + ("' must be a string if present, got "@ + x) =~= p + key
        + "' must be a string if present, got "@ + x);
    assert(p + key + ("' must be an integer if present, got "@ + x) =~= p + key
        + "' must be an integer if present, got "@ + x);
}

} // verus!

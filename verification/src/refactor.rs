//! The single-purpose refactoring tools, mapped to the grouped one.
use vstd::prelude::*;

use crate::args;
use crate::args::{get_str_or, ArgView};
use crate::number;
use crate::text::same_text;

verus! {

/// Whether a JSON value is an object.
pub uninterp spec fn is_object(v: serde_json::Value) -> bool;

/// No fields at all.
pub open spec fn no_fields() -> Map<Seq<char>, ArgView> {
    Map::empty()
}

/// An empty JSON object, `serde_json::Map::new` as a value.
#[verifier::external_body]
fn empty_object() -> (r: serde_json::Value)
    ensures
        is_object(r),
        args::fields(r) == no_fields(),
{
    serde_json::Value::Object(serde_json::Map::new())
}

/// Sets a field of a JSON object to a text, by `serde_json`'s index operator,
/// which inserts or replaces it.
#[verifier::external_body]
fn set_text(v: &mut serde_json::Value, key: &str, value: &str)
    requires
        is_object(*old(v)),
    ensures
        is_object(*final(v)),
        args::fields(*final(v)) == args::fields(*old(v)).insert(key@, ArgView::Text(value@)),
{
    v[key] = serde_json::Value::String(value.to_string());
}

/// Sets a field of a JSON object to a non-negative integer, by `serde_json`'s
/// index operator.
#[verifier::external_body]
fn set_number(v: &mut serde_json::Value, key: &str, value: u64)
    requires
        is_object(*old(v)),
    ensures
        is_object(*final(v)),
        args::fields(*final(v)) == args::fields(*old(v)).insert(
            key@,
            (ArgView::Number { text: number::dec(value as nat), unsigned: Some(value) }),
        ),
{
    v[key] = serde_json::Value::from(value);
}

/// Sets a field of a JSON object to what the same field of `from` holds, by
/// `serde_json`'s index operator and the clone of a value.
#[verifier::external_body]
fn copy_field(v: &mut serde_json::Value, from: &serde_json::Value, key: &str)
    requires
        is_object(*old(v)),
        args::fields(*from).contains_key(key@),
    ensures
        is_object(*final(v)),
        args::fields(*final(v)) == args::fields(*old(v)).insert(key@, args::fields(*from)[key@]),
{
    v[key] = from[key].clone();
}

/// Whether a JSON value has a field, by `serde_json::Value::get`.
#[verifier::external_body]
fn has_field(v: &serde_json::Value, key: &str) -> (r: bool)
    ensures
        r == args::fields(*v).contains_key(key@),
{
    v.get(key).is_some()
}

/// The text of the field `key`, empty where it has none.
pub open spec fn arg_text(a: serde_json::Value, key: Seq<char>) -> Seq<char> {
    args::text_or(args::field(a, key), Seq::empty())
}

/// Where a new parameter goes: behind the one that was named, or at the end.
pub open spec fn param_position(after: Seq<char>) -> Seq<char> {
    if after.len() == 0 {
        "end"@
    } else {
        "after:"@ + after
    }
}

/// `m`, with the line of the call where it has one.
pub open spec fn with_line(m: Map<Seq<char>, ArgView>, a: serde_json::Value) -> Map<
    Seq<char>,
    ArgView,
> {
    if args::fields(a).contains_key("line"@) {
        m.insert("line"@, args::fields(a)["line"@])
    } else {
        m
    }
}

/// The arguments of the grouped tool for a call of a single-purpose one.
pub open spec fn grouped_args(name: Seq<char>, a: serde_json::Value) -> Option<
    Map<Seq<char>, ArgView>,
> {
    if name == "add_function_param"@ {
        Some(
            with_line(
                no_fields().insert(
                    "action"@,
                    ArgView::Text("add_param"@),
                ).insert("path"@, ArgView::Text(arg_text(a, "path"@))).insert(
                    "name"@,
                    ArgView::Text(arg_text(a, "function"@)),
                ).insert("new_param"@, ArgView::Text(arg_text(a, "param"@))).insert(
                    "callsite_fill_in"@,
                    ArgView::Text(arg_text(a, "call_value"@)),
                ).insert("position"@, ArgView::Text(param_position(arg_text(a, "after"@)))),
                a,
            ),
        )
    } else if name == "drop_function_param"@ {
        Some(
            with_line(
                no_fields().insert(
                    "action"@,
                    ArgView::Text("drop_param"@),
                ).insert("path"@, ArgView::Text(arg_text(a, "path"@))).insert(
                    "name"@,
                    ArgView::Text(arg_text(a, "function"@)),
                ).insert("param"@, ArgView::Text(arg_text(a, "param"@))),
                a,
            ),
        )
    } else if name == "rename_symbol"@ {
        let base = no_fields().insert(
            "action"@,
            ArgView::Text("rename"@),
        ).insert("path"@, ArgView::Text(arg_text(a, "path"@)));
        let lined = if args::fields(a).contains_key("line"@) {
            base.insert("line"@, args::fields(a)["line"@])
        } else {
            base.insert("line"@, (ArgView::Number { text: number::dec(0), unsigned: Some(0) }))
        };
        Some(
            lined.insert("name"@, ArgView::Text(arg_text(a, "name"@))).insert(
                "new_name"@,
                ArgView::Text(arg_text(a, "new_name"@)),
            ),
        )
    } else {
        None
    }
}

fn arg(a: &serde_json::Value, key: &str) -> (r: String)
    ensures
        r@ == arg_text(*a, key@),
{
    let none = String::new();
    get_str_or(a, key, &none)
}

/// Maps a call of a single-purpose refactoring tool to the arguments of the
/// grouped one; `None` where `name` is no such tool.
pub fn flat_to_refactor_args(name: &str, a: &serde_json::Value) -> (r: Option<serde_json::Value>)
    ensures
        match r {
            None => grouped_args(name@, *a) is None,
            Some(v) => is_object(v) && grouped_args(name@, *a) == Some(args::fields(v)),
        },
{
    if same_text(name, "add_function_param") {
        let after = arg(a, "after");
        let position = if after.as_str().is_empty() {
            "end".to_owned()
        } else {
            "after:".to_owned().concat(&after)
        };
        let mut out = empty_object();
        set_text(&mut out, "action", "add_param");
        set_text(&mut out, "path", &arg(a, "path"));
        set_text(&mut out, "name", &arg(a, "function"));
        set_text(&mut out, "new_param", &arg(a, "param"));
        set_text(&mut out, "callsite_fill_in", &arg(a, "call_value"));
        set_text(&mut out, "position", &position);
        if has_field(a, "line") {
            copy_field(&mut out, a, "line");
        }
        Some(out)
    } else if same_text(name, "drop_function_param") {
        let mut out = empty_object();
        set_text(&mut out, "action", "drop_param");
        set_text(&mut out, "path", &arg(a, "path"));
        set_text(&mut out, "name", &arg(a, "function"));
        set_text(&mut out, "param", &arg(a, "param"));
        if has_field(a, "line") {
            copy_field(&mut out, a, "line");
        }
        Some(out)
    } else if same_text(name, "rename_symbol") {
        let mut out = empty_object();
        set_text(&mut out, "action", "rename");
        set_text(&mut out, "path", &arg(a, "path"));
        if has_field(a, "line") {
            copy_field(&mut out, a, "line");
        } else {
            set_number(&mut out, "line", 0);
        }
        set_text(&mut out, "name", &arg(a, "name"));
        set_text(&mut out, "new_name", &arg(a, "new_name"));
        Some(out)
    } else {
        None
    }
}

proof fn lemma_field_names()
    ensures
        "action"@ != "path"@,
        "action"@ != "name"@,
        "action"@ != "new_param"@,
        "action"@ != "callsite_fill_in"@,
        "action"@ != "position"@,
        "action"@ != "line"@,
        "action"@ != "param"@,
        "action"@ != "new_name"@,
        "path"@ != "name"@,
        "path"@ != "new_param"@,
        "path"@ != "callsite_fill_in"@,
        "path"@ != "position"@,
        "path"@ != "line"@,
        "path"@ != "param"@,
        "path"@ != "new_name"@,
        "name"@ != "new_param"@,
        "name"@ != "callsite_fill_in"@,
        "name"@ != "position"@,
        "name"@ != "line"@,
        "name"@ != "param"@,
        "name"@ != "new_name"@,
        "new_param"@ != "callsite_fill_in"@,
        "new_param"@ != "position"@,
        "new_param"@ != "line"@,
        "callsite_fill_in"@ != "position"@,
        "callsite_fill_in"@ != "line"@,
        "position"@ != "line"@,
        "param"@ != "line"@,
        "new_name"@ != "line"@,
{
    reveal_strlit("action");
    reveal_strlit("path");
    reveal_strlit("name");
    reveal_strlit("new_param");
    reveal_strlit("callsite_fill_in");
    reveal_strlit("position");
    reveal_strlit("line");
    reveal_strlit("param");
    reveal_strlit("new_name");
    assert("action"@.len() == 6 && "path"@.len() == 4 && "name"@.len() == 4 && "new_param"@.len()
        == 9 && "callsite_fill_in"@.len() == 16 && "position"@.len() == 8 && "line"@.len() == 4
        && "param"@.len() == 5 && "new_name"@.len() == 8);
    assert("path"@[0] != "name"@[0] && "path"@[0] != "line"@[0] && "name"@[0] != "line"@[0]);
}

proof fn lemma_tool_names()
    ensures
        "add_function_param"@ != "drop_function_param"@,
        "add_function_param"@ != "rename_symbol"@,
        "drop_function_param"@ != "rename_symbol"@,
{
    reveal_strlit("add_function_param");
    reveal_strlit("drop_function_param");
    reveal_strlit("rename_symbol");
    assert("add_function_param"@.len() == 18 && "drop_function_param"@.len() == 19
        && "rename_symbol"@.len() == 13);
}

/// Adding a parameter hands each argument on under its name in the grouped tool: the
/// function, the parameter, and what call sites pass; the place is behind the parameter
/// that was named, or the end; the line goes along where it was given.
pub proof fn added_parameters_are_handed_on(a: serde_json::Value)
    ensures
        grouped_args("add_function_param"@, a) matches Some(m) && {
            &&& m["action"@] == ArgView::Text("add_param"@)
            &&& m["path"@] == ArgView::Text(args::text_or(args::field(a, "path"@), Seq::empty()))
            &&& m["name"@] == ArgView::Text(
                args::text_or(args::field(a, "function"@), Seq::empty()),
            )
            &&& m["new_param"@] == ArgView::Text(
                args::text_or(args::field(a, "param"@), Seq::empty()),
            )
            &&& m["callsite_fill_in"@] == ArgView::Text(
                args::text_or(args::field(a, "call_value"@), Seq::empty()),
            )
            &&& args::text_or(args::field(a, "after"@), Seq::empty()).len() == 0
                ==> m["position"@] == ArgView::Text("end"@)
            &&& args::text_or(args::field(a, "after"@), Seq::empty()).len() > 0
                ==> m["position"@] == ArgView::Text(
                "after:"@ + args::text_or(args::field(a, "after"@), Seq::empty()),
            )
            &&& m.contains_key("line"@) <==> args::fields(a).contains_key("line"@)
            &&& m.contains_key("line"@) ==> m["line"@] == args::fields(a)["line"@]
        },
{
    lemma_field_names();
    lemma_tool_names();
}

/// Dropping a parameter hands the function and the parameter on under their names in the
/// grouped tool, and the line where it was given.
pub proof fn dropped_parameters_are_handed_on(a: serde_json::Value)
    ensures
        grouped_args("drop_function_param"@, a) matches Some(m) && {
            &&& m["action"@] == ArgView::Text("drop_param"@)
            &&& m["path"@] == ArgView::Text(args::text_or(args::field(a, "path"@), Seq::empty()))
            &&& m["name"@] == ArgView::Text(
                args::text_or(args::field(a, "function"@), Seq::empty()),
            )
            &&& m["param"@] == ArgView::Text(
                args::text_or(args::field(a, "param"@), Seq::empty()),
            )
            &&& m.contains_key("line"@) <==> args::fields(a).contains_key("line"@)
            &&& m.contains_key("line"@) ==> m["line"@] == args::fields(a)["line"@]
        },
{
    lemma_field_names();
    lemma_tool_names();
}

/// Renaming hands the old and the new name on, and the line, or 0 where none was given.
pub proof fn renamed_symbols_are_handed_on(a: serde_json::Value)
    ensures
        grouped_args("rename_symbol"@, a) matches Some(m) && {
            &&& m["action"@] == ArgView::Text("rename"@)
            &&& m["path"@] == ArgView::Text(args::text_or(args::field(a, "path"@), Seq::empty()))
            &&& m["name"@] == ArgView::Text(args::text_or(args::field(a, "name"@), Seq::empty()))
            &&& m["new_name"@] == ArgView::Text(
                args::text_or(args::field(a, "new_name"@), Seq::empty()),
            )
            &&& args::fields(a).contains_key("line"@) ==> m["line"@] == args::fields(a)["line"@]
            &&& !args::fields(a).contains_key("line"@) ==> args::number_or(m["line"@], 1) == 0
        },
{
    lemma_field_names();
    lemma_tool_names();
}

/// No other tool is one of these.
pub proof fn other_tools_are_not_mapped(name: Seq<char>, a: serde_json::Value)
    ensures
        grouped_args(name, a) is Some <==> (name == "add_function_param"@ || name
            == "drop_function_param"@ || name == "rename_symbol"@),
{
}

} // verus!

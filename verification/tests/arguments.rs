//! Tests of the arguments of a tool call.
use miniswe_tools::args::{
    get_str_or, get_u64_or, number_optional, number_required, opt_str, opt_u64, require_str,
    require_u64, text_optional, text_required, ArgValue,
};
use serde_json::Value;

fn json(s: &str) -> Value {
    serde_json::from_str(s).unwrap()
}

#[test]
fn require_str_missing() {
    let args = json(r#"{}"#);
    assert_eq!(
        require_str(&args, "path").unwrap_err(),
        "Missing required parameter: 'path' (expected string)"
    );
}

#[test]
fn require_str_null() {
    let args = json(r#"{ "path": null }"#);
    assert!(
        require_str(&args, "path")
            .unwrap_err()
            .starts_with("Missing required parameter")
    );
}

#[test]
fn require_str_wrong_type() {
    let args = json(r#"{ "path": 42 }"#);
    assert_eq!(
        require_str(&args, "path").unwrap_err(),
        "Parameter 'path' must be a string, got number"
    );
}

#[test]
fn require_str_ok() {
    let args = json(r#"{ "path": "src/foo.rs" }"#);
    assert_eq!(require_str(&args, "path").unwrap(), "src/foo.rs");
}

#[test]
fn require_u64_wrong_type() {
    let args = json(r#"{ "timeout": "60" }"#);
    assert_eq!(
        require_u64(&args, "timeout").unwrap_err(),
        "Parameter 'timeout' must be an integer, got string"
    );
}

#[test]
fn opt_u64_absent_is_none() {
    let args = json(r#"{}"#);
    assert_eq!(opt_u64(&args, "timeout").unwrap(), None);
}

#[test]
fn opt_u64_wrong_type_is_err() {
    let args = json(r#"{ "timeout": "60" }"#);
    assert!(opt_u64(&args, "timeout").is_err());
}

#[test]
fn get_str_or_falls_back() {
    let args = json(r#"{}"#);
    assert_eq!(get_str_or(&args, "path", "?"), "?");
}

#[test]
fn numbers_are_read_whole() {
    let args = json(r#"{ "n": 18446744073709551615, "neg": -1, "f": 1.5 }"#);
    assert_eq!(require_u64(&args, "n"), Ok(u64::MAX));
    assert_eq!(
        require_u64(&args, "neg").unwrap_err(),
        "Parameter 'neg' must be a non-negative integer, got -1"
    );
    assert_eq!(
        require_u64(&args, "f").unwrap_err(),
        "Parameter 'f' must be a non-negative integer, got 1.5"
    );
    assert_eq!(
        opt_u64(&args, "neg").unwrap_err(),
        number_optional(
            ArgValue::Number { text: "-1".to_string(), unsigned: None },
            "neg"
        )
        .unwrap_err()
    );
    assert_eq!(get_u64_or(&args, "n", 3), u64::MAX);
    assert_eq!(get_u64_or(&args, "f", 3), 3);
    assert_eq!(get_u64_or(&args, "absent", 3), 3);
}

#[test]
fn missing_number_is_named() {
    assert_eq!(
        require_u64(&json("{}"), "rev").unwrap_err(),
        number_required(ArgValue::Null, "rev").unwrap_err()
    );
    assert!(require_u64(&json("{}"), "rev").unwrap_err().contains("'rev'"));
}

#[test]
fn every_kind_of_value_is_told_apart() {
    let args = json(r#"{ "b": true, "a": [1], "o": { "x": 1 }, "n": null, "s": "t" }"#);
    assert_eq!(
        require_str(&args, "b").unwrap_err(),
        "Parameter 'b' must be a string, got boolean"
    );
    assert_eq!(
        require_str(&args, "a").unwrap_err(),
        "Parameter 'a' must be a string, got array"
    );
    assert_eq!(
        require_str(&args, "o").unwrap_err(),
        "Parameter 'o' must be a string, got object"
    );
    assert_eq!(opt_str(&args, "n"), Ok(None));
    assert_eq!(opt_str(&args, "s"), Ok(Some("t".to_string())));
    assert_eq!(
        opt_str(&args, "b").unwrap_err(),
        "Parameter 'b' must be a string if present, got boolean"
    );
    assert_eq!(get_str_or(&args, "s", "?"), "t");
    assert_eq!(get_str_or(&args, "a", "?"), "?");
}

#[test]
fn values_are_judged_without_an_object() {
    assert_eq!(text_required(ArgValue::Text("x".to_string()), "k"), Ok("x".to_string()));
    assert_eq!(text_optional(ArgValue::Null, "k"), Ok(None));
    assert_eq!(
        number_required(ArgValue::Number { text: "7".to_string(), unsigned: Some(7) }, "k"),
        Ok(7)
    );
    assert_eq!(
        number_optional(ArgValue::Number { text: "7".to_string(), unsigned: Some(7) }, "k"),
        Ok(Some(7))
    );
}

#[test]
fn a_value_that_is_no_object_has_no_fields() {
    assert_eq!(opt_str(&json("[1, 2]"), "path"), Ok(None));
    assert_eq!(opt_str(&json("\"text\""), "path"), Ok(None));
}

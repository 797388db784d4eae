//! Tests of the tools that are offered.
use miniswe_tools::definitions::{
    code_help, fast_mode_tool_definitions, file_help, flat_refactor_tool_definitions,
    mcp_tool_definition, plan_help, spawn_agents_tool_definition, tool_definitions, web_help,
    EditMode, ToolDefinition,
};
use miniswe_tools::refactor::flat_to_refactor_args;
use serde_json::Value;

fn json(s: &str) -> Value {
    serde_json::from_str(s).unwrap()
}

#[test]
fn add_function_param_maps_to_add_param_end_by_default() {
    let a =
        json(r#"{"path":"src/lib.rs","function":"assemble","param":"x: u32","call_value":"0"}"#);
    let out = flat_to_refactor_args("add_function_param", &a).unwrap();
    assert_eq!(out["action"], "add_param");
    assert_eq!(out["name"], "assemble");
    assert_eq!(out["new_param"], "x: u32");
    assert_eq!(out["callsite_fill_in"], "0");
    assert_eq!(out["position"], "end");
}

#[test]
fn add_function_param_after_maps_to_after_anchor() {
    let a = json(r#"{"path":"s","function":"f","param":"p: P","call_value":"v","after":"b","line":42}"#);
    let out = flat_to_refactor_args("add_function_param", &a).unwrap();
    assert_eq!(out["position"], "after:b");
    assert_eq!(out["line"], 42);
}

#[test]
fn drop_and_rename_map_correctly() {
    let d = flat_to_refactor_args(
        "drop_function_param",
        &json(r#"{"path":"s","function":"f","param":"p"}"#),
    )
    .unwrap();
    assert_eq!(d["action"], "drop_param");
    assert_eq!(d["param"], "p");
    let r = flat_to_refactor_args(
        "rename_symbol",
        &json(r#"{"path":"s","line":7,"name":"old","new_name":"new"}"#),
    )
    .unwrap();
    assert_eq!(r["action"], "rename");
    assert_eq!(r["new_name"], "new");
    assert_eq!(r["line"], 7);
}

#[test]
fn non_flat_name_returns_none() {
    assert!(flat_to_refactor_args("refactor", &json(r#"{}"#)).is_none());
    assert_eq!(flat_refactor_tool_definitions().len(), 3);
}

fn names(defs: &[ToolDefinition]) -> Vec<String> {
    defs.iter().map(|d| d.name.clone()).collect()
}

#[test]
fn every_schema_is_json() {
    let mut all = tool_definitions(EditMode::Smart);
    all.extend(tool_definitions(EditMode::Fast));
    all.extend(fast_mode_tool_definitions());
    all.extend(flat_refactor_tool_definitions());
    all.push(mcp_tool_definition());
    all.push(spawn_agents_tool_definition());
    for d in &all {
        let schema = json(&d.parameters);
        assert_eq!(schema["type"], "object", "{}", d.name);
        assert!(schema["properties"].is_object(), "{}", d.name);
        assert!(!d.description.is_empty(), "{}", d.name);
        if let Some(required) = schema["required"].as_array() {
            for key in required {
                assert!(
                    schema["properties"].get(key.as_str().unwrap()).is_some(),
                    "{} requires {key}",
                    d.name
                );
            }
        }
    }
}

#[test]
fn the_edit_mode_decides_which_tools_are_recommended() {
    let smart = tool_definitions(EditMode::Smart);
    let fast = tool_definitions(EditMode::Fast);
    assert_eq!(names(&smart), names(&fast));
    let text = |defs: &[ToolDefinition], name: &str| {
        defs.iter().find(|d| d.name == name).unwrap().description.clone()
    };
    assert!(!text(&smart, "file").contains("replace_range"));
    assert!(text(&fast, "file").contains("replace_range"));
    assert!(text(&fast, "write_file").starts_with("Create a NEW file."));
    assert!(text(&smart, "write_file").starts_with("Create or overwrite a file."));
    for d in fast.iter().filter(|d| d.name != "edit_file") {
        assert!(!d.description.contains("edit_file"), "{}", d.name);
    }
    for d in &smart {
        assert!(!d.description.contains("replace_range"), "{}", d.name);
        assert!(!d.description.contains("insert_at"), "{}", d.name);
    }
    for name in ["file", "write_file", "plan", "refactor"] {
        assert!(text(&fast, name).contains("replace_range"), "{name}");
        assert!(text(&fast, name).contains("insert_at"), "{name}");
    }
    for name in ["file", "write_file", "plan", "refactor"] {
        assert!(text(&smart, name).contains("edit_file"), "{name}");
    }
    assert!(text(&fast, "plan").contains(
        "UNLOCKS the edit tools refactor/write_file/replace_range/insert_at), 'check'"
    ));
    assert!(text(&smart, "plan")
        .contains("UNLOCKS the edit tools refactor/edit_file/write_file), 'check'"));
    assert_eq!(
        names(&fast_mode_tool_definitions()),
        vec!["replace_range", "insert_at", "revert", "show_rev", "check"]
    );
    assert_eq!(
        names(&flat_refactor_tool_definitions()),
        vec!["add_function_param", "drop_function_param", "rename_symbol"]
    );
}

#[test]
fn help_texts_differ_by_tool_and_mode() {
    assert!(file_help(EditMode::Smart).contains("edit_file"));
    assert!(file_help(EditMode::Fast).contains("replace_range"));
    assert!(code_help().starts_with("Available actions for `code`"));
    assert!(web_help().starts_with("Available actions for `web`"));
    assert!(plan_help().starts_with("Available actions for `plan`"));
}

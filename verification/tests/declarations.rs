//! TypeScript declarations of a server's tools.

use symposium::json::Json;
use symposium::mcp::declarations::{
    binding_table, has_properties, has_required, render_server, sanitize, unique, ToolDecl,
};

fn from_value(value: &serde_json::Value) -> Json {
    match value {
        serde_json::Value::Null => Json::Null,
        serde_json::Value::Bool(b) => Json::Bool(*b),
        serde_json::Value::Number(n) => Json::Number(n.to_string()),
        serde_json::Value::String(s) => Json::Str(s.clone()),
        serde_json::Value::Array(items) => Json::Array(items.iter().map(from_value).collect()),
        serde_json::Value::Object(fields) => Json::object(
            fields
                .iter()
                .map(|(key, value)| (key.clone(), from_value(value)))
                .collect(),
        ),
    }
}

fn json(text: &str) -> Json {
    from_value(&serde_json::from_str(text).expect("valid JSON"))
}

fn tool<'a>(name: &'a str, schema: &'a Json) -> ToolDecl<'a> {
    ToolDecl {
        name,
        description: None,
        input_schema: Some(schema),
    }
}

#[test]
fn renders_a_tool_with_parameters() {
    let schema = json(r##"{
        "type": "object",
        "properties": {"sql": {"type": "string"}},
        "required": ["sql"]
    }"##);
    let out = render_server("sqlx", &[tool("query", &schema)]);
    assert_eq!(
        out,
        "declare const sqlx: {\n  query(params: {\n    sql: string;\n  }): Promise<unknown>;\n};\n"
    );
}

/// Return types are deliberately untyped: almost no server in the wild
/// declares an output schema, so promising a shape would be a lie.
#[test]
fn every_tool_returns_a_promise_of_unknown() {
    let schema = json(r##"{"type": "object", "properties": {"a": {"type": "string"}}}"##);
    let out = render_server("s", &[tool("t", &schema)]);
    assert!(out.contains("): Promise<unknown>;"), "got:\n{out}");
}

/// A tool taking nothing should not force the model to pass `{}`.
#[test]
fn tool_without_properties_takes_no_argument() {
    let out = render_server("s", &[tool("ping", &json(r##"{"type": "object"}"##))]);
    assert!(out.contains("ping(): Promise<unknown>;"), "got:\n{out}");
}

#[test]
fn tool_with_only_optional_properties_takes_an_optional_argument() {
    let schema = json(r##"{
        "type": "object",
        "properties": {"limit": {"type": "integer"}}
    }"##);
    let out = render_server("s", &[tool("list", &schema)]);
    assert!(out.contains("list(params?: {"), "got:\n{out}");
}

#[test]
fn missing_input_schema_takes_no_argument() {
    let out = render_server(
        "s",
        &[ToolDecl {
            name: "t",
            description: None,
            input_schema: None,
        }],
    );
    assert!(out.contains("t(): Promise<unknown>;"), "got:\n{out}");
}

// -- naming --

/// The protocol's own reference server names 17 of its 18 tools with
/// hyphens, so this is the common case, not an edge case.
#[test]
fn hyphenated_tool_gets_both_spellings() {
    let out = render_server("s", &[tool("get-sum", &json(r##"{}"##))]);
    assert!(
        out.contains(r#"  "get-sum"(): Promise<unknown>;"#),
        "the wire name must stay callable, got:\n{out}"
    );
    assert!(
        out.contains("  get_sum(): Promise<unknown>;"),
        "a dotted alias should also work, got:\n{out}"
    );
    assert!(out.contains("/** Alias for get-sum. */"), "got:\n{out}");
}

#[test]
fn identifier_tool_is_not_aliased() {
    let out = render_server("s", &[tool("query", &json(r##"{}"##))]);
    assert_eq!(out.matches("Promise<unknown>").count(), 1, "got:\n{out}");
    assert!(!out.contains('"'), "no quoting needed, got:\n{out}");
}

#[test]
fn leading_digit_name_is_prefixed() {
    let out = render_server("s", &[tool("2fa", &json(r##"{}"##))]);
    assert!(out.contains(r#""2fa"()"#), "got:\n{out}");
    assert!(out.contains("_2fa()"), "got:\n{out}");
}

/// Two wire names that sanitize to the same identifier must both survive.
#[test]
fn colliding_aliases_are_disambiguated() {
    let out = render_server(
        "s",
        &[tool("get-sum", &json(r##"{}"##)), tool("get.sum", &json(r##"{}"##))],
    );
    assert!(out.contains("get_sum("), "got:\n{out}");
    assert!(out.contains("get_sum_2("), "got:\n{out}");
    assert!(out.contains(r#""get.sum"("#), "got:\n{out}");
}

#[test]
fn server_name_is_sanitized() {
    let out = render_server("sea-orm", &[tool("t", &json(r##"{}"##))]);
    assert!(out.starts_with("declare const sea_orm: {"), "got:\n{out}");
}

// -- documentation and shared types --

#[test]
fn renders_tool_description_as_jsdoc() {
    let out = render_server(
        "s",
        &[ToolDecl {
            name: "t",
            description: Some("Does  a\nthing"),
            input_schema: None,
        }],
    );
    assert!(out.contains("/** Does a thing */"), "got:\n{out}");
}

/// Named types are hoisted above the object so several tools can share
/// them.
#[test]
fn named_types_are_emitted_once_above_the_server() {
    let schema = json(r##"{
        "type": "object",
        "properties": {"user": {"$ref": "#/$defs/User"}},
        "required": ["user"],
        "$defs": {"User": {"type": "object", "properties": {"id": {"type": "string"}}}}
    }"##);
    let out = render_server("s", &[tool("a", &schema), tool("b", &schema)]);
    assert_eq!(out.matches("interface User").count(), 1, "got:\n{out}");
    assert!(
        out.find("interface User") < out.find("declare const s"),
        "types must precede the server object, got:\n{out}"
    );
}

// -- bindings --

/// Every name the declarations show is one the table binds, and the other way
/// round.
#[test]
fn declared_names_are_the_bound_names() {
    let names: Vec<String> = ["get-sum", "get.sum", "get_sum", "plain"]
        .iter()
        .map(|name| name.to_string())
        .collect();
    let table = binding_table(&names);
    let keys: Vec<Vec<String>> = table.iter().map(|b| b.keys.clone()).collect();
    assert_eq!(
        keys,
        vec![
            vec!["get-sum".to_string(), "get_sum".to_string()],
            vec!["get.sum".to_string(), "get_sum_2".to_string()],
            vec!["get_sum_3".to_string()],
            vec!["plain".to_string()],
        ]
    );
    let schema = json("{}");
    let tools: Vec<ToolDecl> = names.iter().map(|name| tool(name, &schema)).collect();
    let out = render_server("s", &tools);
    for (binding, name) in table.iter().zip(&names) {
        assert_eq!(&binding.wire_name, name);
        for key in &binding.keys {
            let shown = if key.contains(['-', '.']) {
                format!("  \"{key}\"(")
            } else {
                format!("  {key}(")
            };
            assert_eq!(out.matches(shown.as_str()).count(), 1, "{shown} in\n{out}");
        }
    }
}

#[test]
fn sanitized_names_are_identifiers() {
    assert_eq!(sanitize("get-sum"), "get_sum");
    assert_eq!(sanitize("2fa"), "_2fa");
    assert_eq!(sanitize(""), "_");
    assert_eq!(sanitize("é"), "_");
}

#[test]
fn a_taken_name_is_numbered() {
    let mut used = vec!["a".to_string(), "a_2".to_string()];
    assert_eq!(unique("a".to_string(), &mut used), "a_3");
    assert_eq!(unique("b".to_string(), &mut used), "b");
    assert_eq!(used.len(), 4);
}

#[test]
fn schemas_say_what_they_declare_and_require() {
    let schema = json(r##"{"properties": {"a": {}}, "required": ["a"]}"##);
    assert!(has_properties(&schema));
    assert!(has_required(&schema));
    let empty = json(r##"{"properties": {}, "required": []}"##);
    assert!(!has_properties(&empty));
    assert!(!has_required(&empty));
}

/// Requiring a name that is not declared makes no declared one obligatory.
#[test]
fn only_declared_properties_can_be_required() {
    let schema = json(r##"{"type": "object", "properties": {"a": {}}, "required": ["ghost"]}"##);
    assert!(!has_required(&schema));
    let several = json(r##"{"properties": {"a": {}, "b": {}}, "required": [1, "b"]}"##);
    assert!(has_required(&several));
    let out = render_server("s", &vec![tool("t", &schema)]);
    assert!(out.contains("t(params?: {"), "{out}");
}

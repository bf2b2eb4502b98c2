//! JSON Schema rendered as TypeScript types.

use symposium::json::Json;
use symposium::mcp::schema_to_ts::{
    choose_key, choose_literal, is_js_identifier, jsdoc_text, property_key, render_literal,
    render_type, TypeRenderer,
};

fn from_value(value: &serde_json::Value) -> Json {
    match value {
        serde_json::Value::Null => Json::Null,
        serde_json::Value::Bool(b) => Json::Bool(*b),
        serde_json::Value::Number(n) => Json::Number(n.to_string()),
        serde_json::Value::String(s) => Json::Str(s.clone()),
        serde_json::Value::Array(items) => Json::Array(items.iter().map(from_value).collect()),
        serde_json::Value::Object(fields) => Json::object(
            fields
                .iter()
                .map(|(key, value)| (key.clone(), from_value(value)))
                .collect(),
        ),
    }
}

fn json(text: &str) -> Json {
    from_value(&serde_json::from_str(text).expect("valid JSON"))
}

fn render(schema: Json) -> String {
    render_type(&schema)
}

// -- scalars --

#[test]
fn renders_scalar_types() {
    assert_eq!(render(json(r##"{"type": "string"}"##)), "string");
    assert_eq!(render(json(r##"{"type": "boolean"}"##)), "boolean");
    assert_eq!(render(json(r##"{"type": "null"}"##)), "null");
}

/// JSON Schema distinguishes integers from other numbers; TypeScript has
/// only `number`.
#[test]
fn renders_integer_as_number() {
    assert_eq!(render(json(r##"{"type": "number"}"##)), "number");
    assert_eq!(render(json(r##"{"type": "integer"}"##)), "number");
}

// -- degradation --

#[test]
fn renders_unconstrained_schemas_as_unknown() {
    assert_eq!(render(json(r##"{}"##)), "unknown");
    assert_eq!(render(json(r##"true"##)), "unknown");
    assert_eq!(render(json(r##"{"type": "not-a-type"}"##)), "unknown");
    assert_eq!(render(json(r##"{"minimum": 3}"##)), "unknown");
}

#[test]
fn renders_uninhabited_schemas_as_never() {
    assert_eq!(render(json(r##"false"##)), "never");
    assert_eq!(render(json(r##"{"enum": []}"##)), "never");
}

// -- arrays --

#[test]
fn renders_arrays() {
    assert_eq!(
        render(json(r##"{"type": "array", "items": {"type": "string"}}"##)),
        "string[]"
    );
    assert_eq!(render(json(r##"{"type": "array"}"##)), "unknown[]");
}

/// `A | B[]` parses as `A | (B[])`, so a union element must be parenthesized.
#[test]
fn parenthesizes_union_array_elements() {
    let out = render(json(r##"{
        "type": "array",
        "items": {"enum": ["a", "b"]}
    }"##));
    assert_eq!(out, r#"("a" | "b")[]"#);
}

// -- enums --

#[test]
fn renders_string_enum_as_literal_union() {
    assert_eq!(render(json(r##"{"enum": ["a", "b"]}"##)), r#""a" | "b""#);
}

/// Enum members are not always strings, and a declared `type` must not
/// override the narrower `enum` constraint.
#[test]
fn renders_mixed_enum_and_ignores_declared_type() {
    assert_eq!(render(json(r##"{"enum": [1, true, null]}"##)), "1 | true | null");
    assert_eq!(
        render(json(r##"{"type": "boolean", "enum": [true]}"##)),
        "true",
        "enum should win over type"
    );
}

// -- objects --

#[test]
fn renders_object_with_required_and_optional_properties() {
    let out = render(json(r##"{
        "type": "object",
        "properties": {
            "sql": {"type": "string"},
            "limit": {"type": "integer"}
        },
        "required": ["sql"]
    }"##));
    assert_eq!(out, "{\n  limit?: number;\n  sql: string;\n}");
}

/// Optionality comes from `required` alone. Nothing else marks a property
/// optional.
#[test]
fn properties_are_optional_when_required_is_absent() {
    let out = render(json(r##"{
        "type": "object",
        "properties": {"a": {"type": "string"}}
    }"##));
    assert_eq!(out, "{\n  a?: string;\n}");
}

/// `additionalProperties: false` is the single most common construct in
/// real tool schemas. Degrading on it would turn every ordinary object into
/// `unknown`.
#[test]
fn additional_properties_false_does_not_degrade_the_object() {
    let out = render(json(r##"{
        "type": "object",
        "properties": {"a": {"type": "string"}},
        "required": ["a"],
        "additionalProperties": false
    }"##));
    assert_eq!(out, "{\n  a: string;\n}");
}

/// One member per property, whatever `additionalProperties` says.
#[test]
fn each_property_is_one_member() {
    let expected = "{\n  a: string;\n  b?: number;\n}";
    for extra in [
        "",
        r##", "additionalProperties": true"##,
        r##", "additionalProperties": {"type": "string"}"##,
    ] {
        let schema = format!(
            "{{\"type\": \"object\", \"properties\": {{\"a\": {{\"type\": \"string\"}}, \"b\": {{\"type\": \"number\"}}}}, \
             \"required\": [\"a\"]{extra}}}"
        );
        assert_eq!(render(json(&schema)), expected);
    }
    let odd = json(r##"{
        "type": "object",
        "properties": {"a": {"type": "string"}},
        "required": "a"
    }"##);
    assert_eq!(render(odd), "{\n  a?: string;\n}");
}

#[test]
fn renders_object_without_properties_as_open_map() {
    assert_eq!(render(json(r##"{"type": "object"}"##)), "Record<string, unknown>");
    assert_eq!(render(json(r##"{"type": "object", "properties": {}}"##)), "{}");
}

#[test]
fn renders_nested_objects_with_indentation() {
    let out = render(json(r##"{
        "type": "object",
        "properties": {
            "outer": {
                "type": "object",
                "properties": {"inner": {"type": "string"}},
                "required": ["inner"]
            }
        },
        "required": ["outer"]
    }"##));
    assert_eq!(
        out, "{\n  outer: {\n    inner: string;\n  };\n}",
        "nested braces should indent, got:\n{out}"
    );
}

// -- property names --

/// Tool schemas use property names that are not JavaScript identifiers.
#[test]
fn quotes_property_names_that_are_not_identifiers() {
    let out = render(json(r##"{
        "type": "object",
        "properties": {
            "content-type": {"type": "string"},
            "2fa": {"type": "boolean"},
            "ok_name": {"type": "string"}
        }
    }"##));
    assert!(out.contains(r#""content-type"?: string;"#), "got:\n{out}");
    assert!(out.contains(r#""2fa"?: boolean;"#), "got:\n{out}");
    assert!(
        out.contains("ok_name?: string;"),
        "valid identifiers stay unquoted, got:\n{out}"
    );
}

// -- documentation --

#[test]
fn renders_description_as_jsdoc() {
    let out = render(json(r##"{
        "type": "object",
        "properties": {
            "sql": {"type": "string", "description": "The query to run"}
        }
    }"##));
    assert_eq!(out, "{\n  /** The query to run */\n  sql?: string;\n}");
}

/// A description containing `*/` would close the JSDoc block early.
#[test]
fn escapes_comment_terminator_in_description() {
    let out = render(json(r##"{
        "type": "object",
        "properties": {
            "a": {"type": "string", "description": "ends the block */ here"}
        }
    }"##));
    assert!(!out.contains("*/ here"), "got:\n{out}");
    assert!(out.contains("* / here"), "got:\n{out}");
}

#[test]
fn collapses_multiline_descriptions() {
    let out = render(json(r##"{
        "type": "object",
        "properties": {
            "a": {"type": "string", "description": "first line\n  second line"}
        }
    }"##));
    assert!(out.contains("/** first line second line */"), "got:\n{out}");
}

// -- names and literals --

#[test]
fn identifiers_are_ascii_words_that_do_not_start_with_a_digit() {
    for name in ["a", "_", "$ref", "camelCase", "snake_2"] {
        assert!(is_js_identifier(name), "{name}");
    }
    for name in ["", "2fa", "a-b", "a b", "naïve"] {
        assert!(!is_js_identifier(name), "{name}");
    }
}

/// The quoted spelling is only used where the bare one is no identifier.
#[test]
fn keys_are_quoted_only_when_they_must_be() {
    assert_eq!(property_key("ok"), "ok");
    assert_eq!(property_key("not ok"), "\"not ok\"");
    assert_eq!(property_key("say \"hi\"\n"), "\"say \\\"hi\\\"\\n\"");
    assert_eq!(choose_key("ok", "unused".to_string()), "ok");
    assert_eq!(choose_key("a-b", "<quoted>".to_string()), "<quoted>");
}

#[test]
fn literals_are_spelled_as_typescript_spells_them() {
    assert_eq!(render_literal(&json("\"a\\\"b\"")), "\"a\\\"b\"");
    assert_eq!(render_literal(&json("1.5")), "1.5");
    assert_eq!(render_literal(&json("null")), "null");
    assert_eq!(render_literal(&json("[1]")), "unknown");
    assert_eq!(
        choose_literal(&json("\"a\""), "<quoted>".to_string()),
        "<quoted>"
    );
    assert_eq!(choose_literal(&json("true"), "<quoted>".to_string()), "true");
}

// -- documentation --

#[test]
fn a_blank_description_documents_nothing() {
    assert_eq!(jsdoc_text(" \n\t "), None);
    assert_eq!(jsdoc_text(" a \n b ").as_deref(), Some("a b"));
}

/// Wherever `*/` stands in a description, it cannot close the comment.
#[test]
fn no_description_closes_its_comment() {
    for text in ["*/", "**//", "a*/b*/c", "*\n/"] {
        let doc = jsdoc_text(text).expect("documented");
        assert!(!doc.contains("*/"), "{doc}");
    }
}

// -- shared types --

#[test]
fn a_reference_is_rendered_as_the_name_it_refers_to() {
    let schema = json(
        r##"{
            "type": "object",
            "properties": {"user": {"$ref": "#/$defs/User"}, "gone": {"$ref": "#/$defs/Gone"}},
            "$defs": {"User": {"type": "object", "properties": {"id": {"type": "string"}}}}
        }"##,
    );
    let mut types = TypeRenderer::new();
    let rendered = types.render_indented(&schema, 0);
    assert!(rendered.contains("user?: User;"), "{rendered}");
    assert!(rendered.contains("gone?: unknown;"), "{rendered}");
    assert!(types.declarations().contains("interface User"));
    let before = types.declarations();
    types.render_indented(&schema, 0);
    assert_eq!(types.declarations(), before, "a type is declared once");
}

fn with_user(shape: &str) -> Json {
    json(&format!(
        "{{\"type\": \"object\", \"properties\": {{\"user\": {{\"$ref\": \"#/$defs/User\"}}}}, \
         \"$defs\": {{\"User\": {shape}, \"Team\": {{\"type\": \"array\", \
         \"items\": {{\"$ref\": \"#/$defs/User\"}}}}}}}}"
    ))
}

/// Another definition of the same name is declared beside the first, and so is
/// what refers to it.
#[test]
fn different_definitions_of_one_name_are_told_apart() {
    let text = with_user(r#"{"type": "string"}"#);
    let number = with_user(r#"{"type": "number"}"#);
    let mut types = TypeRenderer::new();
    assert_eq!(types.render_indented(&text, 0), "{\n  user?: User;\n}");
    assert_eq!(types.render_indented(&number, 0), "{\n  user?: User_2;\n}");
    assert_eq!(types.render_indented(&number, 0), "{\n  user?: User_2;\n}");
    assert_eq!(types.render_indented(&text, 0), "{\n  user?: User;\n}");
    assert_eq!(
        types.declarations(),
        "type Team = User[];\ntype User = string;\n\
         type Team_2 = User_2[];\ntype User_2 = number;\n"
    );
}

/// Names that coerce alike, or that mean something already, get their own.
#[test]
fn every_definition_has_an_identifier_of_its_own() {
    let schema = json(
        r##"{
            "type": "object",
            "properties": {
                "a": {"$ref": "#/$defs/a-b"},
                "b": {"$ref": "#/$defs/a.b"},
                "c": {"$ref": "#/definitions/a.b"},
                "d": {"$ref": "#/$defs/string"}
            },
            "$defs": {
                "a-b": {"type": "string"},
                "a.b": {"type": "number"},
                "string": {"type": "boolean"}
            },
            "definitions": {"a.b": {"type": "null"}}
        }"##,
    );
    let mut types = TypeRenderer::new();
    assert_eq!(
        types.render_indented(&schema, 0),
        "{\n  a?: a_b;\n  b?: a_b_2;\n  c?: a_b_3;\n  d?: string_2;\n}"
    );
    assert_eq!(
        types.declarations(),
        "type a_b = string;\ntype a_b_2 = number;\ntype string_2 = boolean;\n\
         type a_b_3 = null;\n"
    );
}

#[test]
fn an_enum_member_repeated_at_once_is_rendered_once() {
    assert_eq!(
        render(json(r#"{"enum": ["a", "a", "b", "a"]}"#)),
        r#""a" | "b" | "a""#
    );
}

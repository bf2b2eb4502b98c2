//! The two tools of the meta-server.

use symposium::json::Json;
use symposium::mcp::catalog::{Catalog, Query};
use symposium::mcp::resolve::{Rejection, Resolution};
use symposium::mcp::server::{
    run_reply, MetaServer, Reply, Step, EXECUTE, INSTRUCTIONS, LIST_TOOLS,
};

fn from_value(value: &serde_json::Value) -> Json {
    match value {
        serde_json::Value::Null => Json::Null,
        serde_json::Value::Bool(b) => Json::Bool(*b),
        serde_json::Value::Number(n) => Json::Number(n.to_string()),
        serde_json::Value::String(s) => Json::Str(s.clone()),
        serde_json::Value::Array(items) => Json::Array(items.iter().map(from_value).collect()),
        serde_json::Value::Object(fields) => Json::object(
            fields
                .iter()
                .map(|(key, value)| (key.clone(), from_value(value)))
                .collect(),
        ),
    }
}

fn json(text: &str) -> Json {
    from_value(&serde_json::from_str(text).expect("valid JSON"))
}

#[test]
fn advertises_exactly_two_tools() {
    let names: Vec<String> = MetaServer::default()
        .tool_definitions()
        .iter()
        .map(|t| t.name.to_string())
        .collect();
    assert_eq!(names, vec![LIST_TOOLS.to_string(), EXECUTE.to_string()]);
}

/// A client filtering on read-only annotations must not conclude that
/// running arbitrary code is safe.
#[test]
fn server_execute_is_annotated_as_destructive() {
    let tools = MetaServer::default().tool_definitions();
    let execute = tools.iter().find(|t| t.name == EXECUTE).unwrap();
    let annotations = execute.annotations;
    assert_eq!(annotations.read_only_hint, Some(false));
    assert_eq!(annotations.destructive_hint, Some(true));
    assert_eq!(annotations.open_world_hint, Some(true));
}

#[test]
fn list_tools_is_annotated_read_only() {
    let tools = MetaServer::default().tool_definitions();
    let list = tools.iter().find(|t| t.name == LIST_TOOLS).unwrap();
    assert_eq!(
        list.annotations.read_only_hint,
        Some(true)
    );
}

/// The inventory rides in the description so a small workspace needs no
/// discovery round trip.
#[test]
fn execute_description_names_servers_in_scope() {
    let server = MetaServer::new(vec!["sqlx".into(), "sea_orm".into()]);
    let text = server.execute_description();
    assert!(text.contains("Servers in scope: sqlx, sea_orm."), "{text}");
    assert!(text.contains(LIST_TOOLS), "should point at the detail tool");
}

#[test]
fn execute_description_is_explicit_when_nothing_applies() {
    let text = MetaServer::default().execute_description();
    assert!(text.contains("No MCP servers apply"), "{text}");
}

/// The model is shown TypeScript declarations, so it has to be told not
/// to reply in TypeScript.
#[test]
fn execute_description_warns_against_type_annotations() {
    let text = MetaServer::default().execute_description();
    assert!(text.contains("no type annotations"), "{text}");
}

#[test]
fn the_schemas_name_the_parameters() {
    let tools = MetaServer::default().tool_definitions();
    assert_eq!(
        tools[0].input_schema,
        json(
            r#"{
                "type": "object",
                "properties": {
                    "servers": {
                        "type": "array", "items": {"type": "string"},
                        "description": "Restrict to these servers."
                    },
                    "tools": {
                        "type": "array", "items": {"type": "string"},
                        "description": "Restrict to these tool names."
                    },
                    "pattern": {
                        "type": "string",
                        "description": "Glob matched against tool names."
                    },
                    "detail": {
                        "type": "string", "enum": ["names", "signatures", "full"],
                        "description": "How much to return. Defaults to names."
                    }
                }
            }"#
        )
    );
    assert_eq!(
        tools[1].input_schema,
        json(
            r#"{
                "type": "object",
                "properties": {
                    "script": {
                        "type": "string",
                        "description": "The JavaScript program to run."
                    }
                },
                "required": ["script"]
            }"#
        )
    );
    assert_eq!(tools[1].description, MetaServer::default().execute_description());
    assert!(INSTRUCTIONS.contains("`execute`"));
}

// -- calls --

/// With nothing applicable the tools still answer, and say so.
#[test]
fn both_tools_answer_when_nothing_applies() {
    let server = MetaServer::default();
    assert_eq!(
        server.call_tool(LIST_TOOLS, &Json::Null),
        Step::Answer(Reply {
            text: "No MCP servers apply to this workspace.".to_string(),
            is_error: false
        })
    );
    assert_eq!(
        server.call_tool(EXECUTE, &json(r#"{"script": "1"}"#)),
        Step::Answer(Reply {
            text: "No MCP servers apply to this workspace, so there is nothing to call."
                .to_string(),
            is_error: true
        })
    );
}

/// A server that was refused is described even where none is in scope.
#[test]
fn refusals_reach_the_model() {
    let refused = Catalog::new(
        Resolution {
            servers: vec![],
            rejected: vec![Rejection {
                server: "web".into(),
                reason: "only stdio servers are supported".into(),
            }],
        },
        false,
    );
    let server = MetaServer::of(&refused);
    match server.call_tool(LIST_TOOLS, &Json::Null) {
        Step::Describe(query) => assert_eq!(
            refused.describe(&query, &vec![]),
            "Problems:\n  web: only stdio servers are supported\n"
        ),
        other => panic!("expected a description, got {other:?}"),
    }
    assert!(matches!(
        server.call_tool(EXECUTE, &json(r#"{"script": "1"}"#)),
        Step::Answer(reply) if reply.is_error
    ));
    let empty = Catalog::new(Resolution::default(), false);
    assert_eq!(MetaServer::of(&empty), MetaServer::default());
    assert_eq!(
        empty.describe(&Query::default(), &vec![]),
        "No MCP servers apply to this workspace."
    );
}

#[test]
fn calls_lead_to_descriptions_and_scripts() {
    let server = MetaServer::new(vec!["sqlx".into()]);
    match server.call_tool(LIST_TOOLS, &json(r#"{"servers": ["sqlx"]}"#)) {
        Step::Describe(query) => assert_eq!(query.servers, Some(vec!["sqlx".to_string()])),
        other => panic!("expected a description, got {other:?}"),
    }
    assert_eq!(
        server.call_tool(EXECUTE, &json(r#"{"script": "return 1"}"#)),
        Step::Run("return 1".to_string())
    );
    assert_eq!(
        server.call_tool(EXECUTE, &json(r#"{"script": 1}"#)),
        Step::Refuse("`execute` needs a `script`".to_string())
    );
}

#[test]
fn an_unknown_tool_is_told_the_available_ones() {
    assert_eq!(
        MetaServer::default().call_tool("nonexistent", &Json::Null),
        Step::Refuse("no such tool: nonexistent. Available: list_tools, execute".to_string())
    );
}

#[test]
fn a_reply_carries_the_console() {
    assert_eq!(
        run_reply("{\"a\":1}", false, &vec![], &vec![]),
        Reply {
            text: "{\"a\":1}".to_string(),
            is_error: false
        }
    );
    assert_eq!(
        run_reply(
            "{}",
            true,
            &vec!["one".to_string(), "two".to_string()],
            &vec![]
        ),
        Reply {
            text: "{}\n\nconsole:\none\ntwo".to_string(),
            is_error: true
        }
    );
}

#[test]
fn a_reply_names_the_servers_out_of_reach() {
    let problems = vec!["sqlx: no such program".to_string()];
    assert_eq!(
        run_reply("null", false, &vec![], &problems).text,
        "null\n\nproblems:\nsqlx: no such program"
    );
    assert_eq!(
        run_reply("1", false, &vec!["one".to_string()], &problems).text,
        "1\n\nconsole:\none\n\nproblems:\nsqlx: no such program"
    );
}

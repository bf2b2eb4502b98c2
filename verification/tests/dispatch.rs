//! Tool calls between a script and the servers behind it.

use symposium::json::Json;
use symposium::mcp::dispatch::{settle, tool_call, Answer, Binding, Namespace, ToolCall};

fn namespace() -> Namespace {
    Namespace {
        key: "sea_orm".to_string(),
        server: "sea-orm".to_string(),
        bindings: vec![
            Binding {
                key: "migrate-status".to_string(),
                wire_name: "migrate-status".to_string(),
            },
            Binding {
                key: "migrate_status".to_string(),
                wire_name: "migrate-status".to_string(),
            },
        ],
    }
}

/// Both spellings send the wire name, to the server as it was declared.
#[test]
fn both_spellings_send_the_wire_name() {
    let ns = namespace();
    for binding in &ns.bindings {
        assert_eq!(
            tool_call(&ns, binding, Some(Json::Bool(true))),
            ToolCall {
                server: "sea-orm".to_string(),
                tool: "migrate-status".to_string(),
                args: Json::Bool(true),
            }
        );
    }
}

#[test]
fn a_missing_argument_is_sent_as_null() {
    let ns = namespace();
    assert_eq!(tool_call(&ns, &ns.bindings[0], None).args, Json::Null);
}

#[test]
fn an_answer_is_a_value_or_an_exception() {
    assert_eq!(
        settle("sqlx", "query", Answer::Settled(Ok(Json::Str("ok".into())))),
        Ok(Json::Str("ok".into()))
    );
    assert_eq!(
        settle("sqlx", "query", Answer::Settled(Err("table not found".into()))),
        Err("table not found".to_string())
    );
    assert_eq!(
        settle("sqlx", "query", Answer::Abandoned),
        Err("sqlx.query did not answer".to_string())
    );
    assert_eq!(
        settle("sqlx", "query", Answer::Unsent),
        Err("tool dispatch is no longer available".to_string())
    );
}

//! What the workspace's tools look like to the model.

use symposium::json::Json;
use symposium::mcp::catalog::{namespace_key, Catalog, Detail, Listing, Query, Route, ToolInfo};
use symposium::mcp::glob::glob_matches;
use symposium::mcp::resolve::{Rejection, Resolution, ResolvedServer, SpawnSpec};

fn from_value(value: &serde_json::Value) -> Json {
    match value {
        serde_json::Value::Null => Json::Null,
        serde_json::Value::Bool(b) => Json::Bool(*b),
        serde_json::Value::Number(n) => Json::Number(n.to_string()),
        serde_json::Value::String(s) => Json::Str(s.clone()),
        serde_json::Value::Array(items) => Json::Array(items.iter().map(from_value).collect()),
        serde_json::Value::Object(fields) => Json::object(
            fields
                .iter()
                .map(|(key, value)| (key.clone(), from_value(value)))
                .collect(),
        ),
    }
}

fn json(text: &str) -> Json {
    from_value(&serde_json::from_str(text).expect("valid JSON"))
}

/// The global a script uses must be a legal identifier even when the
/// server's declared name is not.
#[test]
fn namespace_keys_are_identifiers() {
    assert_eq!(namespace_key("sqlx"), "sqlx");
    assert_eq!(namespace_key("sea-orm"), "sea_orm");
    assert_eq!(namespace_key("2fa"), "_2fa");
}

#[test]
fn detail_defaults_to_names() {
    assert_eq!(Detail::parse(None), Detail::Names);
    assert_eq!(Detail::parse(Some("nonsense")), Detail::Names);
    assert_eq!(Detail::parse(Some("full")), Detail::Full);
    assert_eq!(Detail::parse(Some("signatures")), Detail::Signatures);
}

/// Asking about specific servers or tools is a request for detail; making
/// the caller also pass `detail` would be a needless second round trip.
#[test]
fn naming_a_target_implies_wanting_detail() {
    let query = Query {
        servers: Some(vec!["sqlx".into()]),
        ..Query::default()
    };
    assert_eq!(query.effective_detail(), Detail::Full);

    let unfiltered = Query::default();
    assert_eq!(unfiltered.effective_detail(), Detail::Names);
}

#[test]
fn explicit_detail_is_respected_even_when_filtering() {
    let query = Query {
        servers: Some(vec!["sqlx".into()]),
        detail: Detail::Signatures,
        ..Query::default()
    };
    assert_eq!(query.effective_detail(), Detail::Signatures);
}

#[test]
fn arguments_are_read_leniently() {
    let query = Query::from_arguments(&json(
        r#"{
            "servers": ["a", "b"],
            "pattern": "get_*",
            "detail": "full",
            "unrecognized": 1
        }"#,
    ));
    assert_eq!(query.servers, Some(vec!["a".into(), "b".into()]));
    assert_eq!(query.pattern.as_deref(), Some("get_*"));
    assert_eq!(query.detail, Detail::Full);
    assert_eq!(query.tools, None);
}

// -- glob --

#[test]
fn glob_matches_prefixes_suffixes_and_middles() {
    assert!(glob_matches("get_*", "get_user"));
    assert!(!glob_matches("get_*", "set_user"));
    assert!(glob_matches("*_user", "get_user"));
    assert!(!glob_matches("*_user", "get_team"));
    assert!(glob_matches("get_*_by_*", "get_user_by_id"));
    assert!(glob_matches("*", "anything"));
}

#[test]
fn glob_without_a_wildcard_is_an_exact_match() {
    assert!(glob_matches("query", "query"));
    assert!(!glob_matches("query", "query2"));
}

#[test]
fn glob_pieces_are_matched_in_turn() {
    assert!(glob_matches("", ""));
    assert!(!glob_matches("", "a"));
    assert!(glob_matches("**", ""));
    assert!(glob_matches("a*a", "aa"));
    assert!(!glob_matches("a*a", "a"));
    assert!(glob_matches("*ab*ab", "abab"));
    assert!(!glob_matches("*ab*ab", "aba"));
    assert!(glob_matches("*a*b*", "xxaxxbxx"));
    assert!(!glob_matches("*b*a*", "xxaxxbxx"));
    assert!(glob_matches("é*", "été"));
    assert!(glob_matches("*aab", "aaab"));
}

/// The matcher agrees with trying every way a `*` can be read.
#[test]
fn globs_are_what_they_are_defined_as() {
    fn expected(pattern: &[char], name: &[char]) -> bool {
        match pattern.first() {
            None => name.is_empty(),
            Some('*') => (0..=name.len()).any(|k| expected(&pattern[1..], &name[k..])),
            Some(c) => name.first() == Some(c) && expected(&pattern[1..], &name[1..]),
        }
    }
    fn texts(letters: &[char], len: usize) -> Vec<String> {
        let mut all = vec![String::new()];
        let mut last = all.clone();
        for _ in 0..len {
            last = last
                .iter()
                .flat_map(|t| letters.iter().map(move |c| format!("{t}{c}")))
                .collect();
            all.extend(last.iter().cloned());
        }
        all
    }
    for pattern in texts(&['a', 'b', '*'], 4) {
        for name in texts(&['a', 'b'], 4) {
            let p: Vec<char> = pattern.chars().collect();
            let n: Vec<char> = name.chars().collect();
            assert_eq!(
                glob_matches(&pattern, &name),
                expected(&p, &n),
                "{pattern} {name}"
            );
        }
    }
}

#[test]
fn arguments_of_another_shape_are_passed_over() {
    let query = Query::from_arguments(&json(
        r#"{"servers": "a", "tools": ["x", 1, "y"], "pattern": 3, "detail": ["full"]}"#,
    ));
    assert_eq!(query.servers, None);
    assert_eq!(query.tools, Some(vec!["x".to_string(), "y".to_string()]));
    assert_eq!(query.pattern, None);
    assert_eq!(query.detail, Detail::Names);
    assert_eq!(Query::from_arguments(&Json::Null), Query::default());
}

#[test]
fn a_query_wants_what_it_names() {
    let query = Query {
        servers: Some(vec!["a".into()]),
        tools: Some(vec!["get_user".into(), "set_user".into()]),
        pattern: Some("get_*".into()),
        detail: Detail::Names,
    };
    assert!(query.wants_server("a"));
    assert!(!query.wants_server("b"));
    assert!(query.wants_tool("get_user"));
    assert!(!query.wants_tool("set_user"));
    assert!(!query.wants_tool("get_team"));
    assert!(Query::default().wants_server("b"));
    assert!(Query::default().wants_tool("anything"));
}

// -- describing --

fn server(name: &str, secs: u64) -> ResolvedServer {
    ResolvedServer {
        spec: SpawnSpec {
            name: name.to_string(),
            command: "/usr/bin/true".to_string(),
            args: vec![],
            env: vec![],
            startup_timeout_secs: 30,
        },
        tool_call_timeout_secs: secs,
        enabled_tools: None,
        disabled_tools: None,
    }
}

fn tool(name: &str, description: Option<&str>, read_only: Option<bool>) -> ToolInfo {
    ToolInfo {
        name: name.to_string(),
        description: description.map(str::to_string),
        input_schema: json(
            r#"{"type": "object", "properties": {"sql": {"type": "string"}}, "required": ["sql"]}"#,
        ),
        read_only_hint: read_only,
    }
}

fn catalog(servers: Vec<ResolvedServer>, rejected: Vec<Rejection>, read_only: bool) -> Catalog {
    Catalog::new(Resolution { servers, rejected }, read_only)
}

fn sqlx() -> Listing {
    Ok(vec![
        tool("query", Some(" Run a SQL query\nsecond line "), Some(true)),
        tool("migrate-status", Some("  "), None),
        tool("drop", None, Some(false)),
    ])
}

#[test]
fn an_index_is_one_line_per_tool() {
    let c = catalog(vec![server("sqlx", 60)], vec![], false);
    assert_eq!(
        c.describe(&Query::default(), &vec![sqlx()]),
        "sqlx:\n  query - Run a SQL query\n  migrate-status\n  drop\n"
    );
}

#[test]
fn nothing_to_describe_is_said() {
    let none = catalog(vec![], vec![], false);
    assert!(none.is_empty());
    assert_eq!(
        none.describe(&Query::default(), &vec![]),
        "No MCP servers apply to this workspace."
    );
    let c = catalog(vec![server("sqlx", 60)], vec![], false);
    let query = Query {
        pattern: Some("nothing_*".into()),
        ..Query::default()
    };
    assert_eq!(c.describe(&query, &vec![sqlx()]), "No tools matched.");
    assert_eq!(
        c.describe(&Query::default(), &vec![Ok(vec![])]),
        "No tools matched."
    );
}

/// Naming a server asks for its declarations, and both spellings are shown.
#[test]
fn a_named_server_is_declared_in_full() {
    let c = catalog(vec![server("sqlx", 60)], vec![], false);
    let query = Query {
        servers: Some(vec!["sqlx".into()]),
        ..Query::default()
    };
    let text = c.describe(&query, &vec![sqlx()]);
    assert!(text.contains("declare const sqlx: {\n"), "{text}");
    assert!(text.contains("sql: string;"), "{text}");
    assert!(text.contains("\"migrate-status\"("), "{text}");
    assert!(text.contains("migrate_status("), "{text}");
    let signatures = Query {
        detail: Detail::Signatures,
        ..query
    };
    let text = c.describe(&signatures, &vec![sqlx()]);
    assert!(text.contains("query(params: unknown): Promise<unknown>;"), "{text}");
}

/// A signature names the parameter a tool takes, and none for one that takes
/// nothing.
#[test]
fn a_signature_names_its_parameter() {
    let c = catalog(vec![server("s", 60)], vec![], false);
    let mut ping = tool("ping", None, None);
    ping.input_schema = json(r#"{"type": "object"}"#);
    let mut list = tool("list", None, None);
    list.input_schema = json(r#"{"type": "object", "properties": {"limit": {"type": "integer"}}}"#);
    let listings = vec![Ok(vec![tool("query", None, None), ping, list])];
    let query = Query {
        detail: Detail::Signatures,
        ..Query::default()
    };
    assert_eq!(
        c.describe(&query, &listings),
        "declare const s: {\n  query(params: unknown): Promise<unknown>;\n  \
         ping(): Promise<unknown>;\n  list(params?: unknown): Promise<unknown>;\n};\n"
    );
}

#[test]
fn problems_stand_behind_what_was_found() {
    let c = catalog(
        vec![server("a", 60), server("b", 60), server("c", 60)],
        vec![Rejection {
            server: "r".into(),
            reason: "only stdio servers are supported".into(),
        }],
        true,
    );
    let listings = vec![
        sqlx(),
        Err("would not start".to_string()),
        Ok(vec![tool("drop", None, None), tool("wipe", None, Some(false))]),
    ];
    assert_eq!(
        c.describe(&Query::default(), &listings),
        "a:\n  query - Run a SQL query\n\nProblems:\n  r: only stdio servers are supported\n  \
         b: would not start\n  c: no tools visible (2 hidden by filters)\n"
    );
    let query = Query {
        servers: Some(vec!["z".into(), "b".into()]),
        ..Query::default()
    };
    assert_eq!(
        c.describe(&query, &listings),
        "Problems:\n  r: only stdio servers are supported\n  b: would not start\n  \
         no server named `z`. Available: a, b, c\n"
    );
}

/// A query that asks for some tools only does not complain about the others.
#[test]
fn a_narrow_query_does_not_report_hidden_tools() {
    let c = catalog(vec![server("a", 60)], vec![], true);
    let query = Query {
        pattern: Some("d*".into()),
        ..Query::default()
    };
    assert_eq!(c.describe(&query, &vec![sqlx()]), "No tools matched.");
}

#[test]
fn only_the_servers_asked_about_are_needed() {
    let c = catalog(vec![server("a", 60), server("b", 60)], vec![], false);
    let query = Query {
        servers: Some(vec!["b".into()]),
        ..Query::default()
    };
    assert!(!c.needs(&query, 0));
    assert!(c.needs(&query, 1));
    assert!(!c.needs(&query, 2));
    assert!(c.needs(&Query::default(), 0));
    assert_eq!(c.server(1).map(|s| s.name()), Some("b"));
    assert!(c.server(2).is_none());
}

// -- namespaces and calls --

#[test]
fn namespaces_bind_the_tools_that_are_shown() {
    let mut filtered = server("sea-orm", 60);
    filtered.disabled_tools = Some(vec!["drop".into()]);
    let c = catalog(
        vec![filtered, server("quiet", 60), server("broken", 60)],
        vec![],
        false,
    );
    let listings = vec![sqlx(), Ok(vec![]), Err("would not start".to_string())];
    let (namespaces, problems) = c.namespaces(&listings);
    assert_eq!(problems, vec!["broken: would not start".to_string()]);
    assert_eq!(namespaces.len(), 1);
    assert_eq!(namespaces[0].key, "sea_orm");
    assert_eq!(namespaces[0].server, "sea-orm");
    let bindings: Vec<(&str, &str)> = namespaces[0]
        .bindings
        .iter()
        .map(|b| (b.key.as_str(), b.wire_name.as_str()))
        .collect();
    assert_eq!(
        bindings,
        vec![
            ("query", "query"),
            ("migrate-status", "migrate-status"),
            ("migrate_status", "migrate-status"),
        ]
    );
    for binding in &namespaces[0].bindings {
        assert!(c.call("sea-orm", &binding.wire_name).is_ok());
    }
}

#[test]
fn calls_are_routed_or_refused() {
    let mut filtered = server("b", 7);
    filtered.enabled_tools = Some(vec!["query".into()]);
    let c = catalog(vec![server("a", 60), filtered], vec![], false);
    assert_eq!(
        c.call("b", "query"),
        Ok(Route {
            server: 1,
            timeout_secs: 7
        })
    );
    assert_eq!(
        c.call("b", "drop"),
        Err("`b.drop` is not exposed by this workspace".to_string())
    );
    assert_eq!(
        c.call("z", "query"),
        Err("no server named `z`. Available: a, b".to_string())
    );
    assert_eq!(c.server_names(), vec!["a".to_string(), "b".to_string()]);
    assert_eq!(c.max_call_timeout(), 60);
    assert_eq!(catalog(vec![], vec![], false).max_call_timeout(), 0);
}

/// The global that is installed is the constant that is declared.
#[test]
fn the_global_is_the_declared_constant() {
    for name in ["sqlx", "sea-orm", "2fa", "日本", ""] {
        let c = catalog(vec![server(name, 60)], vec![], false);
        let (namespaces, _) = c.namespaces(&vec![sqlx()]);
        let query = Query {
            detail: Detail::Full,
            ..Query::default()
        };
        let text = c.describe(&query, &vec![sqlx()]);
        let declared = format!("declare const {}: {{", namespaces[0].key);
        assert!(text.contains(&declared), "{declared} in\n{text}");
    }
}

#[test]
fn a_nameless_server_has_a_global() {
    assert_eq!(namespace_key(""), "_");
}

/// Two tools that slug alike keep their aliases when only one is asked about.
#[test]
fn a_narrow_query_keeps_the_numbers_of_aliases() {
    let c = catalog(vec![server("calc", 60)], vec![], false);
    let listings = vec![Ok(vec![
        tool("get-sum", None, None),
        tool("get.sum", None, None),
    ])];
    let query = Query {
        tools: Some(vec!["get.sum".into()]),
        ..Query::default()
    };
    let text = c.describe(&query, &listings);
    assert!(text.contains("get_sum_2("), "{text}");
    assert!(!text.contains("get_sum("), "{text}");
    let (namespaces, _) = c.namespaces(&listings);
    let bound = namespaces[0]
        .bindings
        .iter()
        .find(|b| b.key == "get_sum_2")
        .map(|b| b.wire_name.as_str());
    assert_eq!(bound, Some("get.sum"));
}

/// Asking for one tool shows it under the names a script can call it by.
#[test]
fn a_narrow_query_shows_names_that_dispatch() {
    let c = catalog(vec![server("sqlx", 60)], vec![], false);
    let (namespaces, _) = c.namespaces(&vec![sqlx()]);
    let query = Query {
        tools: Some(vec!["migrate-status".into()]),
        ..Query::default()
    };
    let text = c.describe(&query, &vec![sqlx()]);
    let keys: Vec<&str> = namespaces[0]
        .bindings
        .iter()
        .filter(|b| b.wire_name == "migrate-status")
        .map(|b| b.key.as_str())
        .collect();
    assert_eq!(keys, vec!["migrate-status", "migrate_status"]);
    assert!(text.contains("  \"migrate-status\"("), "{text}");
    assert!(text.contains("  migrate_status("), "{text}");
    assert!(!text.contains("query("), "{text}");
}

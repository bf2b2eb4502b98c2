//! Which backing servers a workspace makes available.

use symposium::mcp::resolve::{
    build, call_timeout, resolve, GatedPlugin, McpServer, McpServerOverrides, PluginMcpServer,
    Resolution, StdioServer,
};
use symposium::mcp::server::{EXECUTE, LIST_TOOLS};

fn stdio(name: &str) -> PluginMcpServer {
    PluginMcpServer {
        overrides: McpServerOverrides::default(),
        server: McpServer::Stdio(StdioServer {
            name: name.to_string(),
            command: "/usr/bin/true".to_string(),
            args: vec![],
            env: vec![],
        }),
    }
}

fn resolve_all(entries: Vec<(&PluginMcpServer, &str)>, script_secs: u64) -> Resolution {
    build(
        entries
            .into_iter()
            .map(|(e, owner)| (e, owner.to_string()))
            .collect(),
        script_secs,
    )
}

#[test]
fn stdio_servers_become_spawnable() {
    let entry = stdio("sqlx");
    let out = resolve_all(vec![(&entry, "db-plugin")], 120);

    assert_eq!(out.servers.len(), 1);
    assert_eq!(out.servers[0].name(), "sqlx");
    assert!(out.rejected.is_empty());
}

/// A silently missing server looks like a broken workspace, so refusals
/// are reported.
#[test]
fn http_servers_are_refused_with_a_reason() {
    let entry = PluginMcpServer {
        overrides: McpServerOverrides::default(),
        server: McpServer::Http {
            name: "remote".to_string(),
        },
    };
    let out = resolve_all(vec![(&entry, "p")], 120);

    assert!(out.servers.is_empty());
    assert_eq!(out.rejected.len(), 1);
    assert!(out.rejected[0].reason.contains("stdio"));
}

/// First-wins would drop one plugin's server silently, and a warning on
/// a stdio server's stderr is invisible.
#[test]
fn duplicate_names_are_refused_naming_both_plugins() {
    let a = stdio("sqlx");
    let b = stdio("sqlx");
    let out = resolve_all(vec![(&a, "first-plugin"), (&b, "second-plugin")], 120);

    assert_eq!(out.servers.len(), 1, "the first still works");
    assert_eq!(out.rejected.len(), 1);
    let reason = &out.rejected[0].reason;
    assert!(
        reason.contains("first-plugin") && reason.contains("second-plugin"),
        "both sides should be named, got: {reason}"
    );
}

/// A backing server called `execute` would shadow the meta-server's own
/// tool.
#[test]
fn reserved_names_are_refused() {
    for name in [LIST_TOOLS, EXECUTE] {
        let entry = stdio(name);
        let out = resolve_all(vec![(&entry, "p")], 120);
        assert!(out.servers.is_empty(), "{name} should be refused");
        assert!(out.rejected[0].reason.contains("reserved"));
    }
}

#[test]
fn per_server_timeouts_are_honored() {
    let mut entry = stdio("slow");
    entry.overrides.startup_timeout_secs = Some(45);
    entry.overrides.tool_call_timeout_secs = Some(90);
    let out = resolve_all(vec![(&entry, "p")], 300);

    assert_eq!(out.servers[0].spec.startup_timeout_secs, 45);
    assert_eq!(out.servers[0].tool_call_timeout_secs, 90);
}

/// A plugin author cannot see the user's configuration, so an override
/// beyond the script budget is clamped rather than refused.
#[test]
fn call_timeout_is_clamped_below_the_script_deadline() {
    let mut entry = stdio("slow");
    entry.overrides.tool_call_timeout_secs = Some(600);
    let out = resolve_all(vec![(&entry, "p")], 30);

    assert_eq!(
        out.servers[0].tool_call_timeout_secs, 29,
        "must stay strictly under the script deadline or it can never fire"
    );
}

// -- tool filters --

#[test]
fn an_allow_list_hides_everything_else() {
    let mut entry = stdio("sqlx");
    entry.overrides.enabled_tools = Some(vec!["query".into()]);
    let out = resolve_all(vec![(&entry, "p")], 120);

    assert!(out.servers[0].exposes("query"));
    assert!(!out.servers[0].exposes("drop_table"));
}

#[test]
fn a_deny_list_hides_only_what_it_names() {
    let mut entry = stdio("sqlx");
    entry.overrides.disabled_tools = Some(vec!["drop_table".into()]);
    let out = resolve_all(vec![(&entry, "p")], 120);

    assert!(out.servers[0].exposes("query"));
    assert!(!out.servers[0].exposes("drop_table"));
}

/// An empty allow-list means nothing, which is different from declaring
/// no filter at all.
#[test]
fn an_empty_allow_list_exposes_nothing() {
    let mut entry = stdio("sqlx");
    entry.overrides.enabled_tools = Some(vec![]);
    let out = resolve_all(vec![(&entry, "p")], 120);

    assert!(!out.servers[0].exposes("query"));
}

#[test]
fn without_filters_every_tool_is_exposed() {
    let entry = stdio("sqlx");
    let out = resolve_all(vec![(&entry, "p")], 120);
    assert!(out.servers[0].exposes("anything"));
}

/// Order must not depend on registry iteration, or the inventory shown
/// to the model would shift between sessions.
#[test]
fn servers_are_ordered_by_name() {
    let b = stdio("b-server");
    let a = stdio("a-server");
    let out = resolve_all(vec![(&b, "p"), (&a, "p")], 120);

    let names: Vec<&str> = out.servers.iter().map(|s| s.name()).collect();
    assert_eq!(names, vec!["a-server", "b-server"]);
}

// -- the registry --

fn gated(name: &str, applies: bool, servers: Vec<(PluginMcpServer, bool)>) -> GatedPlugin {
    GatedPlugin {
        name: name.to_string(),
        applies,
        mcp_servers: servers,
    }
}

/// Outside a workspace there is nothing to condition on.
#[test]
fn outside_a_workspace_nothing_is_served() {
    let out = resolve(None, 120);
    assert!(out.servers.is_empty());
    assert!(out.rejected.is_empty());
}

#[test]
fn only_what_applies_is_served() {
    let plugins = vec![
        gated("on", true, vec![(stdio("a"), true), (stdio("b"), false)]),
        gated("off", false, vec![(stdio("c"), true)]),
    ];
    let out = resolve(Some(&plugins), 120);
    let names: Vec<&str> = out.servers.iter().map(|s| s.name()).collect();
    assert_eq!(names, vec!["a"]);
    assert!(out.rejected.is_empty());
}

#[test]
fn what_is_declared_reaches_the_spawned_process() {
    let mut entry = stdio("sqlx");
    entry.server = McpServer::Stdio(StdioServer {
        name: "sqlx".to_string(),
        command: "/bin/sqlx-mcp".to_string(),
        args: vec!["--stdio".to_string()],
        env: vec![("URL".to_string(), "x".to_string())],
    });
    let out = resolve_all(vec![(&entry, "p")], 120);
    let spec = &out.servers[0].spec;
    assert_eq!(spec.command, "/bin/sqlx-mcp");
    assert_eq!(spec.args, vec!["--stdio".to_string()]);
    assert_eq!(spec.env, vec![("URL".to_string(), "x".to_string())]);
    assert_eq!(spec.startup_timeout_secs, 30);
    assert_eq!(out.servers[0].tool_call_timeout_secs, 60);
}

/// Each refusal says exactly why.
#[test]
fn refusals_are_spelled_out() {
    let first = stdio("sqlx");
    let second = stdio("sqlx");
    let reserved = stdio("execute");
    let remote = PluginMcpServer {
        overrides: McpServerOverrides::default(),
        server: McpServer::Sse {
            name: "remote".to_string(),
        },
    };
    let odd = PluginMcpServer {
        overrides: McpServerOverrides::default(),
        server: McpServer::Unrecognized,
    };
    let out = resolve_all(
        vec![
            (&first, "one"),
            (&second, "two"),
            (&reserved, "three"),
            (&remote, "four"),
            (&odd, "five"),
        ],
        120,
    );
    let refused: Vec<(&str, &str)> = out
        .rejected
        .iter()
        .map(|r| (r.server.as_str(), r.reason.as_str()))
        .collect();
    assert_eq!(
        refused,
        vec![
            ("sqlx", "declared by both `one` and `two`"),
            ("execute", "`three` uses a name reserved by the meta-server"),
            ("remote", "only stdio servers are supported"),
            ("<unknown>", "only stdio servers are supported"),
        ]
    );
    assert_eq!(out.servers.len() + out.rejected.len(), 5);
}

/// A name taken over another transport is not claimed.
#[test]
fn a_refused_entry_claims_no_name() {
    let remote = PluginMcpServer {
        overrides: McpServerOverrides::default(),
        server: McpServer::Http {
            name: "sqlx".to_string(),
        },
    };
    let local = stdio("sqlx");
    let out = resolve_all(vec![(&remote, "one"), (&local, "two")], 120);
    assert_eq!(out.servers.len(), 1);
    assert_eq!(out.rejected.len(), 1);
}

#[test]
fn a_call_timeout_leaves_the_script_time_to_end() {
    let asked = |secs: Option<u64>| McpServerOverrides {
        tool_call_timeout_secs: secs,
        ..McpServerOverrides::default()
    };
    assert_eq!(call_timeout(&asked(None), 120), 60);
    assert_eq!(call_timeout(&asked(None), 61), 60);
    assert_eq!(call_timeout(&asked(None), 60), 59);
    assert_eq!(call_timeout(&asked(Some(5)), 2), 1);
    assert_eq!(call_timeout(&asked(Some(60)), 1), 0);
    assert_eq!(call_timeout(&asked(Some(5)), 0), 1);
    assert_eq!(call_timeout(&asked(Some(0)), 120), 0);
    assert_eq!(call_timeout(&asked(Some(u64::MAX)), u64::MAX), u64::MAX - 1);
}

#[test]
fn an_allow_list_decides_alone() {
    let mut entry = stdio("sqlx");
    entry.overrides.enabled_tools = Some(vec!["query".into()]);
    entry.overrides.disabled_tools = Some(vec!["query".into()]);
    let out = resolve_all(vec![(&entry, "p")], 120);
    assert!(out.servers[0].exposes("query"));
}

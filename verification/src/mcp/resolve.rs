//! Deciding which backing servers a workspace makes available.
//!
//! The same predicate filtering that decides which skills install decides
//! which MCP servers are in scope, so a workspace only ever sees tools
//! belonging to crates it actually depends on. That conditionality is the
//! thing no MCP primitive can express, and it is why the meta-server exists.
//!
//! Nothing is started here. Resolution is a read of the plugin registry;
//! processes begin on first use.

use vstd::prelude::*;

use super::server::{EXECUTE, LIST_TOOLS};
use crate::text;
use crate::text::{contains_text, copy_optional_strings, copy_strings, same_text, text_before};

verus! {

// ── what a manifest declares ─────────────────────────────────────────

/// A server started as a child process and spoken to over its standard
/// streams.
#[derive(Debug, Clone, PartialEq, Eq)]
pub struct StdioServer {
    pub name: String,
    pub command: String,
    pub args: Vec<String>,
    pub env: Vec<(String, String)>,
}

/// A server as a plugin manifest declares it.
#[derive(Debug, Clone, PartialEq, Eq)]
pub enum McpServer {
    Stdio(StdioServer),
    Http { name: String },
    Sse { name: String },
    /// A transport this version does not know.
    Unrecognized,
}

/// What a plugin may adjust about one of its servers.
#[derive(Debug, Clone, Default, PartialEq, Eq)]
pub struct McpServerOverrides {
    pub startup_timeout_secs: Option<u64>,
    pub tool_call_timeout_secs: Option<u64>,
    pub enabled_tools: Option<Vec<String>>,
    pub disabled_tools: Option<Vec<String>>,
}

/// One server entry of a plugin manifest.
#[derive(Debug, Clone, PartialEq, Eq)]
pub struct PluginMcpServer {
    pub overrides: McpServerOverrides,
    pub server: McpServer,
}

/// One plugin of a workspace's registry, with its gates evaluated.
#[derive(Debug, Clone, PartialEq, Eq)]
pub struct GatedPlugin {
    pub name: String,
    /// Whether the plugin's own predicates hold.
    pub applies: bool,
    /// Its server entries, each with whether its predicates hold.
    pub mcp_servers: Vec<(PluginMcpServer, bool)>,
}

// ── what resolution produces ─────────────────────────────────────────

/// How to start a backing server.
#[derive(Debug, Clone, PartialEq, Eq)]
pub struct SpawnSpec {
    pub name: String,
    pub command: String,
    pub args: Vec<String>,
    pub env: Vec<(String, String)>,
    pub startup_timeout_secs: u64,
}

/// A backing server, ready to be started on demand.
#[derive(Debug, Clone, PartialEq, Eq)]
pub struct ResolvedServer {
    pub spec: SpawnSpec,
    /// Ceiling on one call to this server, already reconciled with the
    /// user's script deadline.
    pub tool_call_timeout_secs: u64,
    pub enabled_tools: Option<Vec<String>>,
    pub disabled_tools: Option<Vec<String>>,
}

/// A server that could not be used, and why.
#[derive(Debug, Clone, PartialEq, Eq)]
pub struct Rejection {
    pub server: String,
    pub reason: String,
}

/// What resolution produced, including what it had to refuse.
#[derive(Debug, Default, PartialEq, Eq)]
pub struct Resolution {
    pub servers: Vec<ResolvedServer>,
    /// Servers that could not be used, and why. Reported rather than
    /// swallowed: a server silently missing looks like a broken workspace.
    pub rejected: Vec<Rejection>,
}

// ── models ───────────────────────────────────────────────────────────

/// What a list of name and value pairs holds.
pub open spec fn pairs_of(pairs: Seq<(String, String)>) -> Seq<(Seq<char>, Seq<char>)> {
    pairs.map_values(|pair: (String, String)| (pair.0@, pair.1@))
}

/// What an optional list of strings holds.
pub open spec fn optional_texts(list: Option<Vec<String>>) -> Option<Seq<Seq<char>>> {
    match list {
        Some(list) => Some(text::texts(list@)),
        None => None,
    }
}

/// What a resolved server holds.
#[verifier::ext_equal]
pub struct ServerView {
    pub name: Seq<char>,
    pub command: Seq<char>,
    pub args: Seq<Seq<char>>,
    pub env: Seq<(Seq<char>, Seq<char>)>,
    pub startup_timeout_secs: u64,
    pub tool_call_timeout_secs: u64,
    pub enabled_tools: Option<Seq<Seq<char>>>,
    pub disabled_tools: Option<Seq<Seq<char>>>,
}

impl View for ResolvedServer {
    type V = ServerView;

    open spec fn view(&self) -> ServerView {
        ServerView {
            name: self.spec.name@,
            command: self.spec.command@,
            args: text::texts(self.spec.args@),
            env: pairs_of(self.spec.env@),
            startup_timeout_secs: self.spec.startup_timeout_secs,
            tool_call_timeout_secs: self.tool_call_timeout_secs,
            enabled_tools: optional_texts(self.enabled_tools),
            disabled_tools: optional_texts(self.disabled_tools),
        }
    }
}

impl ServerView {
    /// Whether the plugin's filters let a tool through. An allow-list decides
    /// alone; without one, a deny-list hides what it names.
    pub open spec fn lets_through(self, tool: Seq<char>) -> bool {
        match self.enabled_tools {
            Some(allow) => allow.contains(tool),
            None => match self.disabled_tools {
                Some(deny) => !deny.contains(tool),
                None => true,
            },
        }
    }
}

/// What some resolved servers hold.
pub open spec fn server_views(servers: Seq<ResolvedServer>) -> Seq<ServerView> {
    servers.map_values(|server: ResolvedServer| server@)
}

/// The servers and reasons of some rejections.
pub open spec fn rejection_views(rejected: Seq<Rejection>) -> Seq<(Seq<char>, Seq<char>)> {
    rejected.map_values(|rejection: Rejection| (rejection.server@, rejection.reason@))
}

impl ResolvedServer {
    pub fn name(&self) -> (name: &str)
        ensures
            name@ == self@.name,
    {
        self.spec.name.as_str()
    }

    /// Whether a plugin's filters let this tool through.
    pub fn exposes(&self, tool: &str) -> (yes: bool)
        ensures
            yes == self@.lets_through(tool@),
    {
        if let Some(allow) = &self.enabled_tools {
            return contains_text(allow.as_slice(), tool);
        }
        if let Some(deny) = &self.disabled_tools {
            return !contains_text(deny.as_slice(), tool);
        }
        true
    }
}

// ── timeouts ─────────────────────────────────────────────────────────

/// The ceiling on one call: what the plugin asks for, or a minute, kept
/// strictly below the script deadline. A deadline of zero leaves nothing below
/// it; a call is then given a second at most.
pub open spec fn call_timeout_for(requested: Option<u64>, script_timeout_secs: u64) -> u64 {
    let wanted = match requested {
        Some(secs) => secs,
        None => 60,
    };
    let ceiling = if script_timeout_secs >= 1 {
        (script_timeout_secs - 1) as u64
    } else {
        1
    };
    if wanted < ceiling {
        wanted
    } else {
        ceiling
    }
}

/// Reconcile a plugin's call timeout with the user's script deadline.
///
/// A plugin author cannot see the user's configuration, so an override longer
/// than the whole script budget is clamped rather than rejected; refusing to
/// load a server because a user lowered their own limit would punish the
/// wrong person.
pub fn call_timeout(overrides: &McpServerOverrides, script_timeout_secs: u64) -> (secs: u64)
    ensures
        secs == call_timeout_for(overrides.tool_call_timeout_secs, script_timeout_secs),
        script_timeout_secs >= 1 ==> secs < script_timeout_secs,
{
    let requested: u64 = match overrides.tool_call_timeout_secs {
        Some(secs) => secs,
        None => 60,
    };
    // Leave the script deadline strictly larger, or the call timeout could
    // never fire.
    let ceiling: u64 = if script_timeout_secs >= 1 {
        script_timeout_secs - 1
    } else {
        1
    };
    if requested < ceiling {
        requested
    } else {
        ceiling
    }
}

// ── resolution ───────────────────────────────────────────────────────

/// An applicable server entry and the plugin that declares it.
pub struct EntryView {
    pub server: McpServer,
    pub overrides: McpServerOverrides,
    pub owner: Seq<char>,
}

/// The name a server goes by.
pub open spec fn name_of(server: McpServer) -> Seq<char> {
    match server {
        McpServer::Stdio(stdio) => stdio.name@,
        McpServer::Http { name } => name@,
        McpServer::Sse { name } => name@,
        McpServer::Unrecognized => "<unknown>"@,
    }
}

/// Whether a name belongs to one of the meta-server's own tools.
pub open spec fn is_reserved(name: Seq<char>) -> bool {
    name == LIST_TOOLS@ || name == EXECUTE@
}

/// The plugin that first claimed `name`.
pub open spec fn claimant(
    claims: Seq<(Seq<char>, Seq<char>)>,
    name: Seq<char>,
) -> Option<Seq<char>>
    decreases claims.len(),
{
    if claims.len() == 0 {
        None
    } else if claims[0].0 == name {
        Some(claims[0].1)
    } else {
        claimant(claims.drop_first(), name)
    }
}

/// Why an entry is refused, where it is, given the names claimed before it.
///
/// The meta-server's own tools live in the same namespace as the servers it
/// exposes, so their names are reserved. First-wins would silently drop one
/// plugin's server, so a clash names both sides.
pub open spec fn refusal(
    entry: EntryView,
    claims: Seq<(Seq<char>, Seq<char>)>,
) -> Option<Seq<char>> {
    let name = name_of(entry.server);
    if is_reserved(name) {
        Some("`"@ + entry.owner + "` uses a name reserved by the meta-server"@)
    } else {
        match claimant(claims, name) {
            Some(first) => Some(
                "declared by both `"@ + first + "` and `"@ + entry.owner + "`"@,
            ),
            None => match entry.server {
                McpServer::Stdio(_) => None,
                _ => Some("only stdio servers are supported"@),
            },
        }
    }
}

/// The names claimed by some entries, each with the plugin that claimed it.
pub open spec fn claims_of(entries: Seq<EntryView>) -> Seq<(Seq<char>, Seq<char>)>
    decreases entries.len(),
{
    if entries.len() == 0 {
        seq![]
    } else {
        let earlier = claims_of(entries.drop_last());
        let entry = entries.last();
        if refusal(entry, earlier) is None {
            earlier.push((name_of(entry.server), entry.owner))
        } else {
            earlier
        }
    }
}

/// The servers and reasons of the entries that are refused, in order.
pub open spec fn rejections_of(entries: Seq<EntryView>) -> Seq<(Seq<char>, Seq<char>)>
    decreases entries.len(),
{
    if entries.len() == 0 {
        seq![]
    } else {
        let earlier = rejections_of(entries.drop_last());
        let entry = entries.last();
        match refusal(entry, claims_of(entries.drop_last())) {
            Some(reason) => earlier.push((name_of(entry.server), reason)),
            None => earlier,
        }
    }
}

/// The runnable server an entry declares.
pub open spec fn server_for(entry: EntryView, script_timeout_secs: u64) -> ServerView {
    let stdio = entry.server->Stdio_0;
    ServerView {
        name: stdio.name@,
        command: stdio.command@,
        args: text::texts(stdio.args@),
        env: pairs_of(stdio.env@),
        startup_timeout_secs: match entry.overrides.startup_timeout_secs {
            Some(secs) => secs,
            None => 30,
        },
        tool_call_timeout_secs: call_timeout_for(
            entry.overrides.tool_call_timeout_secs,
            script_timeout_secs,
        ),
        enabled_tools: optional_texts(entry.overrides.enabled_tools),
        disabled_tools: optional_texts(entry.overrides.disabled_tools),
    }
}

/// The servers of the entries that are accepted, in the order declared.
pub open spec fn accepted_of(entries: Seq<EntryView>, script_timeout_secs: u64) -> Seq<ServerView>
    decreases entries.len(),
{
    if entries.len() == 0 {
        seq![]
    } else {
        let earlier = accepted_of(entries.drop_last(), script_timeout_secs);
        let entry = entries.last();
        if refusal(entry, claims_of(entries.drop_last())) is None {
            earlier.push(server_for(entry, script_timeout_secs))
        } else {
            earlier
        }
    }
}

/// Whether servers stand in strictly ascending order of their names.
pub open spec fn in_name_order(servers: Seq<ServerView>) -> bool {
    forall|i: int, j: int|
        0 <= i < j < servers.len() ==> text::before(
            (#[trigger] servers[i]).name,
            (#[trigger] servers[j]).name,
        )
}

/// Whether `resolution` is what some entries resolve to: the accepted servers
/// in name order, and the refused ones in the order declared.
pub open spec fn resolves_to(
    entries: Seq<EntryView>,
    script_timeout_secs: u64,
    resolution: Resolution,
) -> bool {
    &&& in_name_order(server_views(resolution.servers@))
    &&& server_views(resolution.servers@).to_multiset() == accepted_of(
        entries,
        script_timeout_secs,
    ).to_multiset()
    &&& rejection_views(resolution.rejected@) == rejections_of(entries)
}

/// The name a server goes by.
fn server_name(server: &McpServer) -> (name: &str)
    ensures
        name@ == name_of(*server),
{
    match server {
        McpServer::Stdio(stdio) => stdio.name.as_str(),
        McpServer::Http { name } => name.as_str(),
        McpServer::Sse { name } => name.as_str(),
        McpServer::Unrecognized => "<unknown>",
    }
}

/// The entries as the contracts speak of them.
pub open spec fn entry_views(entries: Seq<(&PluginMcpServer, String)>) -> Seq<EntryView> {
    entries.map_values(
        |entry: (&PluginMcpServer, String)|
            EntryView { server: entry.0.server, overrides: entry.0.overrides, owner: entry.1@ },
    )
}

/// The plugin that first claimed `name`, if any did.
fn find_claimant<'a>(claims: &'a Vec<(String, String)>, name: &str) -> (owner: Option<&'a String>)
    ensures
        owner is Some <==> claimant(pairs_of(claims@), name@) is Some,
        owner matches Some(owner) ==> claimant(pairs_of(claims@), name@) == Some(owner@),
{
    let ghost all = pairs_of(claims@);
    let mut i: usize = 0;
    assert(all.skip(0) =~= all);
    while i < claims.len()
        invariant
            i <= claims@.len(),
            all == pairs_of(claims@),
            claimant(all, name@) == claimant(all.skip(i as int), name@),
        decreases claims@.len() - i,
    {
        assert(all.skip(i as int)[0] == all[i as int]);
        assert(all.skip(i as int).drop_first() =~= all.skip(i + 1));
        if same_text(claims[i].0.as_str(), name) {
            return Some(&claims[i].1);
        }
        i += 1;
    }
    None
}

/// A name that nobody claimed stands in no claim, and one that somebody
/// claimed stands in one.
proof fn lemma_claimant(claims: Seq<(Seq<char>, Seq<char>)>, name: Seq<char>)
    ensures
        claimant(claims, name) is None <==> forall|i: int|
            0 <= i < claims.len() ==> (#[trigger] claims[i]).0 != name,
        claimant(claims, name) matches Some(owner) ==> claims.contains((name, owner)),
    decreases claims.len(),
{
    if claims.len() > 0 {
        let rest = claims.drop_first();
        lemma_claimant(rest, name);
        assert forall|i: int| 0 < i < claims.len() implies #[trigger] claims[i] == rest[i - 1] by {}
        assert forall|i: int| 0 <= i < rest.len() implies #[trigger] rest[i] == claims[i + 1] by {}
        if let Some(owner) = claimant(rest, name) {
            let at = choose|at: int| 0 <= at < rest.len() && rest[at] == (name, owner);
            assert(claims[at + 1] == (name, owner));
        }
        assert(claims[0].0 == name ==> claims[0] == (name, claims[0].1));
    }
}

/// Each accepted server claimed its own name.
proof fn lemma_accepted_claimed(entries: Seq<EntryView>, script_timeout_secs: u64)
    ensures
        accepted_of(entries, script_timeout_secs).len() == claims_of(entries).len(),
        forall|i: int|
            0 <= i < claims_of(entries).len() ==> (#[trigger] claims_of(entries)[i]).0
                == accepted_of(entries, script_timeout_secs)[i].name,
        forall|i: int|
            0 <= i < claims_of(entries).len() ==> (#[trigger] accepted_of(
                entries,
                script_timeout_secs,
            )[i]).name == claims_of(entries)[i].0,
    decreases entries.len(),
{
    if entries.len() > 0 {
        lemma_accepted_claimed(entries.drop_last(), script_timeout_secs);
    }
}

/// Put a server among others in name order, keeping the order.
fn insert_by_name(servers: &mut Vec<ResolvedServer>, server: ResolvedServer)
    requires
        in_name_order(server_views(old(servers)@)),
        forall|i: int|
            0 <= i < old(servers)@.len() ==> (#[trigger] server_views(old(servers)@)[i]).name
                != server@.name,
    ensures
        in_name_order(server_views(final(servers)@)),
        server_views(final(servers)@).to_multiset() == server_views(
            old(servers)@,
        ).to_multiset().insert(server@),
{
    let ghost before = server_views(servers@);
    let mut at: usize = 0;
    while at < servers.len() && text_before(servers[at].name(), server.name())
        invariant
            at <= servers@.len(),
            before == server_views(servers@),
            forall|i: int|
                0 <= i < at ==> text::before((#[trigger] before[i]).name, server@.name),
        decreases servers@.len() - at,
    {
        assert(before[at as int] == servers@[at as int]@);
        at += 1;
    }
    let ghost view = server@;
    servers.insert(at, server);
    proof {
        let after = server_views(servers@);
        assert(after =~= before.insert(at as int, view));
        vstd::seq_lib::to_multiset_insert(before, at as int, view);
        assert forall|i: int, j: int| 0 <= i < j < after.len() implies text::before(
            (#[trigger] after[i]).name,
            (#[trigger] after[j]).name,
        ) by {
            if i == at {
                text::lemma_before_total(before[at as int].name, view.name);
                if j > at + 1 {
                    text::lemma_before_transitive(
                        view.name,
                        before[at as int].name,
                        before[j - 1].name,
                    );
                }
            }
        }
    }
}

/// Copy name and value pairs.
fn copy_pairs(pairs: &Vec<(String, String)>) -> (copy: Vec<(String, String)>)
    ensures
        pairs_of(copy@) == pairs_of(pairs@),
{
    let mut copy: Vec<(String, String)> = Vec::new();
    let mut i: usize = 0;
    while i < pairs.len()
        invariant
            i <= pairs@.len(),
            pairs_of(copy@) == pairs_of(pairs@).take(i as int),
        decreases pairs@.len() - i,
    {
        let ghost earlier = pairs_of(copy@);
        copy.push((pairs[i].0.clone(), pairs[i].1.clone()));
        assert(pairs_of(copy@) =~= earlier.push(pairs_of(pairs@)[i as int]));
        i += 1;
    }
    copy
}

/// Why an entry of this owner is refused for the name it takes.
fn reserved_reason(owner: &str) -> (reason: String)
    ensures
        reason@ == "`"@ + owner@ + "` uses a name reserved by the meta-server"@,
{
    let mut reason = "`".to_string();
    reason.append(owner);
    reason.append("` uses a name reserved by the meta-server");
    reason
}

/// Why an entry is refused for a name that another plugin took first.
fn clash_reason(first: &str, owner: &str) -> (reason: String)
    ensures
        reason@ == "declared by both `"@ + first@ + "` and `"@ + owner@ + "`"@,
{
    let mut reason = "declared by both `".to_string();
    reason.append(first);
    reason.append("` and `");
    reason.append(owner);
    reason.append("`");
    reason
}

/// The runnable server a standard-streams entry declares.
fn spawnable(
    stdio: &StdioServer,
    overrides: &McpServerOverrides,
    script_timeout_secs: u64,
) -> (server: ResolvedServer)
    ensures
        forall|owner: Seq<char>|
            server@ == #[trigger] server_for(
                EntryView { server: McpServer::Stdio(*stdio), overrides: *overrides, owner },
                script_timeout_secs,
            ),
{
    let startup_timeout_secs: u64 = match overrides.startup_timeout_secs {
        Some(secs) => secs,
        None => 30,
    };
    let server = ResolvedServer {
        spec: SpawnSpec {
            name: stdio.name.clone(),
            command: stdio.command.clone(),
            args: copy_strings(&stdio.args),
            env: copy_pairs(&stdio.env),
            startup_timeout_secs,
        },
        tool_call_timeout_secs: call_timeout(overrides, script_timeout_secs),
        enabled_tools: copy_optional_strings(&overrides.enabled_tools),
        disabled_tools: copy_optional_strings(&overrides.disabled_tools),
    };
    proof {
        assert forall|owner: Seq<char>|
            server@ == #[trigger] server_for(
                EntryView { server: McpServer::Stdio(*stdio), overrides: *overrides, owner },
                script_timeout_secs,
            ) by {
            let expected = server_for(
                EntryView { server: McpServer::Stdio(*stdio), overrides: *overrides, owner },
                script_timeout_secs,
            );
            assert(server@ =~= expected);
        }
    }
    server
}

/// Turn applicable manifest entries into runnable servers.
pub fn build(
    entries: Vec<(&PluginMcpServer, String)>,
    script_timeout_secs: u64,
) -> (resolution: Resolution)
    ensures
        resolves_to(entry_views(entries@), script_timeout_secs, resolution),
{
    let ghost views = entry_views(entries@);
    let mut servers: Vec<ResolvedServer> = Vec::new();
    let mut rejected: Vec<Rejection> = Vec::new();
    // Which plugin claimed each name, so a clash can name both sides.
    let mut claimed: Vec<(String, String)> = Vec::new();
    let mut i: usize = 0;
    proof {
        assert(views.take(0) =~= seq![]);
        assert(pairs_of(claimed@) =~= seq![]);
        assert(rejection_views(rejected@) =~= seq![]);
        assert(server_views(servers@) =~= seq![]);
    }
    while i < entries.len()
        invariant
            i <= entries@.len(),
            views == entry_views(entries@),
            pairs_of(claimed@) == claims_of(views.take(i as int)),
            rejection_views(rejected@) == rejections_of(views.take(i as int)),
            in_name_order(server_views(servers@)),
            server_views(servers@).to_multiset() == accepted_of(
                views.take(i as int),
                script_timeout_secs,
            ).to_multiset(),
        decreases entries@.len() - i,
    {
        let entry = entries[i].0;
        let owner = entries[i].1.as_str();
        let name = server_name(&entry.server);
        let ghost view = views[i as int];
        let ghost earlier = views.take(i as int);
        let ghost claims = pairs_of(claimed@);
        let ghost refused = rejection_views(rejected@);
        proof {
            assert(views.take(i + 1).drop_last() =~= earlier);
            assert(views.take(i + 1).last() == view);
        }
        i += 1;
        // A backing server called like one of the meta-server's own tools
        // would shadow it.
        if same_text(name, LIST_TOOLS) || same_text(name, EXECUTE) {
            let reason = reserved_reason(owner);
            rejected.push(Rejection { server: name.to_string(), reason });
            assert(rejection_views(rejected@) =~= refused.push(
                (name_of(view.server), refusal(view, claims)->Some_0),
            ));
            continue;
        }
        if let Some(first) = find_claimant(&claimed, name) {
            let reason = clash_reason(first.as_str(), owner);
            rejected.push(Rejection { server: name.to_string(), reason });
            assert(rejection_views(rejected@) =~= refused.push(
                (name_of(view.server), refusal(view, claims)->Some_0),
            ));
            continue;
        }
        match &entry.server {
            McpServer::Stdio(stdio) => {
                let server = spawnable(stdio, &entry.overrides, script_timeout_secs);
                proof {
                    let accepted = accepted_of(earlier, script_timeout_secs);
                    let present = server_views(servers@);
                    assert(server@ == server_for(view, script_timeout_secs));
                    lemma_claimant(claims, name@);
                    lemma_accepted_claimed(earlier, script_timeout_secs);
                    assert forall|k: int| 0 <= k < servers@.len() implies (
                    #[trigger] present[k]).name != server@.name by {
                        vstd::seq_lib::to_multiset_contains(present, present[k]);
                        vstd::seq_lib::to_multiset_contains(accepted, present[k]);
                        let at = choose|at: int|
                            0 <= at < accepted.len() && accepted[at] == present[k];
                        assert(claims[at].0 == accepted[at].name);
                    }
                    vstd::seq_lib::to_multiset_build(accepted, server@);
                }
                insert_by_name(&mut servers, server);
                claimed.push((name.to_string(), owner.to_string()));
                assert(pairs_of(claimed@) =~= claims.push((name_of(view.server), view.owner)));
            },
            _ => {
                let reason = "only stdio servers are supported".to_string();
                rejected.push(Rejection { server: name.to_string(), reason });
                assert(rejection_views(rejected@) =~= refused.push(
                    (name_of(view.server), refusal(view, claims)->Some_0),
                ));
            },
        }
    }
    assert(views.take(i as int) =~= views);
    Resolution { servers, rejected }
}

/// The entries of a plugin whose predicates hold, each with its owner.
pub open spec fn entries_of(
    servers: Seq<(PluginMcpServer, bool)>,
    owner: Seq<char>,
) -> Seq<EntryView>
    decreases servers.len(),
{
    if servers.len() == 0 {
        seq![]
    } else {
        let earlier = entries_of(servers.drop_last(), owner);
        let (entry, applies) = servers.last();
        if applies {
            earlier.push(EntryView { server: entry.server, overrides: entry.overrides, owner })
        } else {
            earlier
        }
    }
}

/// The entries a workspace makes available: those whose own predicates and
/// whose plugin's predicates hold, in registry order.
pub open spec fn available(plugins: Seq<GatedPlugin>) -> Seq<EntryView>
    decreases plugins.len(),
{
    if plugins.len() == 0 {
        seq![]
    } else {
        let earlier = available(plugins.drop_last());
        let plugin = plugins.last();
        if plugin.applies {
            earlier + entries_of(plugin.mcp_servers@, plugin.name@)
        } else {
            earlier
        }
    }
}

/// Resolve the servers applicable to a workspace, given the plugins of its
/// registry; `None` stands for a directory outside any workspace.
pub fn resolve(
    workspace: Option<&Vec<GatedPlugin>>,
    script_timeout_secs: u64,
) -> (resolution: Resolution)
    ensures
        match workspace {
            Some(plugins) => resolves_to(available(plugins@), script_timeout_secs, resolution),
            None => resolution.servers@.len() == 0 && resolution.rejected@.len() == 0,
        },
{
    let plugins = match workspace {
        Some(plugins) => plugins,
        // Outside a workspace there is nothing to condition on.
        None => return Resolution { servers: Vec::new(), rejected: Vec::new() },
    };
    let mut entries: Vec<(&PluginMcpServer, String)> = Vec::new();
    let mut i: usize = 0;
    assert(entry_views(entries@) =~= available(plugins@.take(0)));
    while i < plugins.len()
        invariant
            i <= plugins@.len(),
            entry_views(entries@) == available(plugins@.take(i as int)),
        decreases plugins@.len() - i,
    {
        let plugin = &plugins[i];
        assert(plugins@.take(i + 1).drop_last() =~= plugins@.take(i as int));
        i += 1;
        if !plugin.applies {
            continue;
        }
        let ghost earlier = entry_views(entries@);
        let mut k: usize = 0;
        assert(entry_views(entries@) =~= earlier + entries_of(
            plugin.mcp_servers@.take(0),
            plugin.name@,
        ));
        while k < plugin.mcp_servers.len()
            invariant
                k <= plugin.mcp_servers@.len(),
                entry_views(entries@) == earlier + entries_of(
                    plugin.mcp_servers@.take(k as int),
                    plugin.name@,
                ),
            decreases plugin.mcp_servers@.len() - k,
        {
            let ghost present = entry_views(entries@);
            let entry = &plugin.mcp_servers[k];
            assert(plugin.mcp_servers@.take(k + 1).drop_last() =~= plugin.mcp_servers@.take(
                k as int,
            ));
            if entry.1 {
                entries.push((&entry.0, plugin.name.clone()));
                assert(entry_views(entries@) =~= present.push(
                    EntryView {
                        server: entry.0.server,
                        overrides: entry.0.overrides,
                        owner: plugin.name@,
                    },
                ));
            }
            k += 1;
        }
        assert(plugin.mcp_servers@.take(k as int) =~= plugin.mcp_servers@);
    }
    assert(plugins@.take(i as int) =~= plugins@);
    build(entries, script_timeout_secs)
}

// ── laws ─────────────────────────────────────────────────────────────

/// The server of an accepted entry is among the accepted ones.
proof fn lemma_accepted_stays(entries: Seq<EntryView>, i: int, script_timeout_secs: u64)
    requires
        0 <= i < entries.len(),
        refusal(entries[i], claims_of(entries.take(i))) is None,
    ensures
        accepted_of(entries, script_timeout_secs).contains(
            server_for(entries[i], script_timeout_secs),
        ),
    decreases entries.len(),
{
    let accepted = accepted_of(entries, script_timeout_secs);
    let earlier = accepted_of(entries.drop_last(), script_timeout_secs);
    let server = server_for(entries[i], script_timeout_secs);
    if i == entries.len() - 1 {
        assert(entries.take(i) =~= entries.drop_last());
        assert(accepted.last() == server);
    } else {
        assert(entries.drop_last().take(i) =~= entries.take(i));
        lemma_accepted_stays(entries.drop_last(), i, script_timeout_secs);
        let at = choose|at: int| 0 <= at < earlier.len() && earlier[at] == server;
        assert(accepted[at] == server);
    }
}

/// Each accepted server comes from an entry that was accepted.
proof fn lemma_accepted_comes_from(
    entries: Seq<EntryView>,
    k: int,
    script_timeout_secs: u64,
) -> (i: int)
    requires
        0 <= k < accepted_of(entries, script_timeout_secs).len(),
    ensures
        0 <= i < entries.len(),
        refusal(entries[i], claims_of(entries.take(i))) is None,
        accepted_of(entries, script_timeout_secs)[k] == server_for(
            entries[i],
            script_timeout_secs,
        ),
    decreases entries.len(),
{
    let shorter = entries.drop_last();
    let earlier = accepted_of(shorter, script_timeout_secs);
    if k < earlier.len() {
        let i = lemma_accepted_comes_from(shorter, k, script_timeout_secs);
        assert(shorter.take(i) =~= entries.take(i));
        i
    } else {
        assert(entries.take(entries.len() - 1) =~= shorter);
        entries.len() - 1
    }
}

/// Each resolved server comes from an entry that was accepted.
proof fn lemma_served_comes_from(
    entries: Seq<EntryView>,
    k: int,
    script_timeout_secs: u64,
    resolution: Resolution,
) -> (i: int)
    requires
        resolves_to(entries, script_timeout_secs, resolution),
        0 <= k < resolution.servers@.len(),
    ensures
        0 <= i < entries.len(),
        refusal(entries[i], claims_of(entries.take(i))) is None,
        resolution.servers@[k]@ == server_for(entries[i], script_timeout_secs),
{
    let servers = server_views(resolution.servers@);
    let accepted = accepted_of(entries, script_timeout_secs);
    vstd::seq_lib::to_multiset_contains(servers, servers[k]);
    vstd::seq_lib::to_multiset_contains(accepted, servers[k]);
    let at = choose|at: int| 0 <= at < accepted.len() && accepted[at] == servers[k];
    lemma_accepted_comes_from(entries, at, script_timeout_secs)
}

/// No two resolved servers share a name, and none takes a name of the
/// meta-server's own tools.
pub proof fn served_names_are_distinct_and_free(
    entries: Seq<EntryView>,
    script_timeout_secs: u64,
    resolution: Resolution,
)
    requires
        resolves_to(entries, script_timeout_secs, resolution),
    ensures
        forall|i: int, j: int|
            0 <= i < j < resolution.servers@.len() ==> (#[trigger] resolution.servers@[i]@).name
                != (#[trigger] resolution.servers@[j]@).name,
        forall|i: int|
            0 <= i < resolution.servers@.len() ==> !is_reserved(
                (#[trigger] resolution.servers@[i]@).name,
            ),
{
    let servers = server_views(resolution.servers@);
    assert forall|i: int, j: int| 0 <= i < j < resolution.servers@.len() implies (
    #[trigger] resolution.servers@[i]@).name != (#[trigger] resolution.servers@[j]@).name by {
        assert(text::before(servers[i].name, servers[j].name));
        text::lemma_before_total(servers[i].name, servers[j].name);
    }
    assert forall|i: int| 0 <= i < resolution.servers@.len() implies !is_reserved(
        (#[trigger] resolution.servers@[i]@).name,
    ) by {
        let from = lemma_served_comes_from(entries, i, script_timeout_secs, resolution);
    }
}

/// No entry goes missing: each is either served or refused with a reason, and
/// nothing else is served or refused.
pub proof fn every_entry_is_served_or_refused(
    entries: Seq<EntryView>,
    script_timeout_secs: u64,
    resolution: Resolution,
)
    requires
        resolves_to(entries, script_timeout_secs, resolution),
    ensures
        resolution.servers@.len() + resolution.rejected@.len() == entries.len(),
        forall|i: int|
            0 <= i < entries.len() ==> {
                let entry = #[trigger] entries[i];
                match refusal(entry, claims_of(entries.take(i))) {
                    None => server_views(resolution.servers@).contains(
                        server_for(entry, script_timeout_secs),
                    ),
                    Some(reason) => rejection_views(resolution.rejected@).contains(
                        (name_of(entry.server), reason),
                    ),
                }
            },
{
    let accepted = accepted_of(entries, script_timeout_secs);
    let servers = server_views(resolution.servers@);
    lemma_accepted_and_refused(entries, script_timeout_secs);
    vstd::seq_lib::to_multiset_len(servers);
    vstd::seq_lib::to_multiset_len(accepted);
    assert forall|i: int| 0 <= i < entries.len() implies {
        let entry = #[trigger] entries[i];
        match refusal(entry, claims_of(entries.take(i))) {
            None => servers.contains(server_for(entry, script_timeout_secs)),
            Some(reason) => rejection_views(resolution.rejected@).contains(
                (name_of(entry.server), reason),
            ),
        }
    } by {
        if refusal(entries[i], claims_of(entries.take(i))) is None {
            let server = server_for(entries[i], script_timeout_secs);
            lemma_accepted_stays(entries, i, script_timeout_secs);
            vstd::seq_lib::to_multiset_contains(servers, server);
            vstd::seq_lib::to_multiset_contains(accepted, server);
        } else {
            lemma_refused_stays(entries, i);
        }
    }
}

/// The refusal of a refused entry is among the refusals.
proof fn lemma_refused_stays(entries: Seq<EntryView>, i: int)
    requires
        0 <= i < entries.len(),
        refusal(entries[i], claims_of(entries.take(i))) is Some,
    ensures
        rejections_of(entries).contains(
            (
                name_of(entries[i].server),
                refusal(entries[i], claims_of(entries.take(i)))->Some_0,
            ),
        ),
    decreases entries.len(),
{
    let refused = rejections_of(entries);
    let earlier = rejections_of(entries.drop_last());
    let rejection = (
        name_of(entries[i].server),
        refusal(entries[i], claims_of(entries.take(i)))->Some_0,
    );
    if i == entries.len() - 1 {
        assert(entries.take(i) =~= entries.drop_last());
        assert(refused.last() == rejection);
    } else {
        assert(entries.drop_last().take(i) =~= entries.take(i));
        lemma_refused_stays(entries.drop_last(), i);
        let at = choose|at: int| 0 <= at < earlier.len() && earlier[at] == rejection;
        assert(refused[at] == rejection);
    }
}

/// Of each entry either a server or a refusal comes.
proof fn lemma_accepted_and_refused(entries: Seq<EntryView>, script_timeout_secs: u64)
    ensures
        accepted_of(entries, script_timeout_secs).len() + rejections_of(entries).len()
            == entries.len(),
    decreases entries.len(),
{
    if entries.len() > 0 {
        lemma_accepted_and_refused(entries.drop_last(), script_timeout_secs);
    }
}

/// The first plugin to declare a standard-streams server under a free name is
/// served it, whatever is declared under that name later.
pub proof fn the_first_claim_is_served(
    entries: Seq<EntryView>,
    i: int,
    script_timeout_secs: u64,
    resolution: Resolution,
)
    requires
        resolves_to(entries, script_timeout_secs, resolution),
        0 <= i < entries.len(),
        entries[i].server is Stdio,
        !is_reserved(name_of(entries[i].server)),
        forall|j: int|
            0 <= j < i && (#[trigger] entries[j]).server is Stdio ==> name_of(entries[j].server)
                != name_of(entries[i].server),
    ensures
        server_views(resolution.servers@).contains(server_for(entries[i], script_timeout_secs)),
{
    lemma_unclaimed(entries, i);
    lemma_accepted_stays(entries, i, script_timeout_secs);
    let server = server_for(entries[i], script_timeout_secs);
    vstd::seq_lib::to_multiset_contains(server_views(resolution.servers@), server);
    vstd::seq_lib::to_multiset_contains(accepted_of(entries, script_timeout_secs), server);
}

/// A name that no earlier standard-streams entry declares is unclaimed.
proof fn lemma_unclaimed(entries: Seq<EntryView>, i: int)
    requires
        0 <= i < entries.len(),
        forall|j: int|
            0 <= j < i && (#[trigger] entries[j]).server is Stdio ==> name_of(entries[j].server)
                != name_of(entries[i].server),
    ensures
        claimant(claims_of(entries.take(i)), name_of(entries[i].server)) is None,
{
    let earlier = entries.take(i);
    let claims = claims_of(earlier);
    let accepted = accepted_of(earlier, 0);
    lemma_claimant(claims, name_of(entries[i].server));
    lemma_accepted_claimed(earlier, 0);
    assert forall|k: int| 0 <= k < claims.len() implies (#[trigger] claims[k]).0 != name_of(
        entries[i].server,
    ) by {
        let from = lemma_accepted_comes_from(earlier, k, 0);
        assert(earlier[from] == entries[from]);
        assert(accepted[k].name == claims[k].0);
    }
}

/// One call to a server ends before the script that makes it must, whatever
/// the plugin asks for, as long as the script has any time at all.
pub proof fn calls_end_before_the_script(
    entries: Seq<EntryView>,
    script_timeout_secs: u64,
    resolution: Resolution,
)
    requires
        resolves_to(entries, script_timeout_secs, resolution),
        script_timeout_secs >= 1,
    ensures
        forall|i: int|
            0 <= i < resolution.servers@.len() ==> (
            #[trigger] resolution.servers@[i]@).tool_call_timeout_secs < script_timeout_secs,
{
    assert forall|i: int| 0 <= i < resolution.servers@.len() implies (
    #[trigger] resolution.servers@[i]@).tool_call_timeout_secs < script_timeout_secs by {
        let from = lemma_served_comes_from(entries, i, script_timeout_secs, resolution);
    }
}

/// Servers that stand in name order and are the same servers are the same
/// list.
proof fn lemma_name_order_is_unique(a: Seq<ServerView>, b: Seq<ServerView>)
    requires
        in_name_order(a),
        in_name_order(b),
        forall|server: ServerView| #[trigger] a.contains(server) <==> b.contains(server),
    ensures
        a == b,
{
    let precedes = |x: ServerView, y: ServerView| text::before(x.name, y.name);
    assert forall|x: ServerView, y: ServerView| #[trigger] precedes(x, y) implies !precedes(
        y,
        x,
    ) by {
        text::lemma_before_total(x.name, y.name);
    }
    text::lemma_order_is_unique(a, b, precedes);
}

/// Whether no two entries go by the same name.
pub open spec fn names_differ(entries: Seq<EntryView>) -> bool {
    forall|i: int, j: int|
        0 <= i < j < entries.len() ==> name_of((#[trigger] entries[i]).server) != name_of(
            (#[trigger] entries[j]).server,
        )
}

/// What is served of `a` is served of any other order of the same entries,
/// where no two of them share a name.
proof fn lemma_served_in_any_order(
    a: Seq<EntryView>,
    b: Seq<EntryView>,
    script_timeout_secs: u64,
    one: Resolution,
    other: Resolution,
    server: ServerView,
)
    requires
        a.to_multiset() == b.to_multiset(),
        names_differ(b),
        resolves_to(a, script_timeout_secs, one),
        resolves_to(b, script_timeout_secs, other),
        server_views(one.servers@).contains(server),
    ensures
        server_views(other.servers@).contains(server),
{
    let servers = server_views(one.servers@);
    let k = choose|k: int| 0 <= k < servers.len() && servers[k] == server;
    let from = lemma_served_comes_from(a, k, script_timeout_secs, one);
    vstd::seq_lib::to_multiset_contains(a, a[from]);
    vstd::seq_lib::to_multiset_contains(b, a[from]);
    let to = choose|to: int| 0 <= to < b.len() && b[to] == a[from];
    the_first_claim_is_served(b, to, script_timeout_secs, other);
}

/// The servers shown do not depend on the order in which the registry lists
/// its plugins, where no two entries share a name.
pub proof fn registry_order_does_not_show(
    a: Seq<EntryView>,
    b: Seq<EntryView>,
    script_timeout_secs: u64,
    one: Resolution,
    other: Resolution,
)
    requires
        a.to_multiset() == b.to_multiset(),
        names_differ(a),
        names_differ(b),
        resolves_to(a, script_timeout_secs, one),
        resolves_to(b, script_timeout_secs, other),
    ensures
        server_views(one.servers@) == server_views(other.servers@),
{
    let left = server_views(one.servers@);
    let right = server_views(other.servers@);
    assert forall|server: ServerView| left.contains(server) implies right.contains(server) by {
        lemma_served_in_any_order(a, b, script_timeout_secs, one, other, server);
    }
    assert forall|server: ServerView| right.contains(server) implies left.contains(server) by {
        lemma_served_in_any_order(b, a, script_timeout_secs, other, one, server);
    }
    lemma_name_order_is_unique(left, right);
}

/// A plugin that applies makes available each of its entries that applies, under
/// its own name, as often as it is declared and in that order.
pub proof fn entries_that_apply_are_available(
    servers: Seq<(PluginMcpServer, bool)>,
    owner: Seq<char>,
)
    ensures
        entries_of(servers, owner) == servers.filter(
            |entry: (PluginMcpServer, bool)| entry.1,
        ).map_values(
            |entry: (PluginMcpServer, bool)|
                EntryView { server: entry.0.server, overrides: entry.0.overrides, owner },
        ),
    decreases servers.len(),
{
    reveal(Seq::filter);
    let applies = |entry: (PluginMcpServer, bool)| entry.1;
    let seen = |entry: (PluginMcpServer, bool)|
        EntryView { server: entry.0.server, overrides: entry.0.overrides, owner };
    if servers.len() > 0 {
        let rest = servers.drop_last();
        entries_that_apply_are_available(rest, owner);
        assert(rest.filter(applies).push(servers.last()).map_values(seen) =~= rest.filter(
            applies,
        ).map_values(seen).push(seen(servers.last())));
    } else {
        assert(entries_of(servers, owner) =~= servers.filter(applies).map_values(seen));
    }
}

/// What a workspace makes available is what its plugins do, one after the
/// other; one that does not apply makes nothing available.
pub proof fn plugins_add_up(a: Seq<GatedPlugin>, b: Seq<GatedPlugin>, plugin: GatedPlugin)
    ensures
        available(a + b) == available(a) + available(b),
        available(seq![]).len() == 0,
        !plugin.applies ==> available(seq![plugin]).len() == 0,
        plugin.applies ==> available(seq![plugin]) == plugin.mcp_servers@.filter(
            |entry: (PluginMcpServer, bool)| entry.1,
        ).map_values(
            |entry: (PluginMcpServer, bool)|
                EntryView {
                    server: entry.0.server,
                    overrides: entry.0.overrides,
                    owner: plugin.name@,
                },
        ),
    decreases b.len(),
{
    reveal_with_fuel(available, 2);
    entries_that_apply_are_available(plugin.mcp_servers@, plugin.name@);
    assert(seq![plugin].drop_last() =~= seq![]);
    let alone = entries_of(plugin.mcp_servers@, plugin.name@);
    assert(Seq::<EntryView>::empty() + alone =~= alone);
    if b.len() > 0 {
        assert((a + b).drop_last() =~= a + b.drop_last());
        plugins_add_up(a, b.drop_last(), plugin);
        assert(available(a + b) =~= available(a) + available(b));
    } else {
        assert(a + b =~= a);
        assert(available(a + b) =~= available(a) + available(b));
    }
}

/// Every entry that applies, of every plugin that applies, is available under
/// the plugin's name.
pub proof fn every_applicable_entry_is_available(plugins: Seq<GatedPlugin>, p: int, e: int)
    requires
        0 <= p < plugins.len(),
        plugins[p].applies,
        0 <= e < plugins[p].mcp_servers@.len(),
        plugins[p].mcp_servers@[e].1,
    ensures
        available(plugins).contains(
            EntryView {
                server: plugins[p].mcp_servers@[e].0.server,
                overrides: plugins[p].mcp_servers@[e].0.overrides,
                owner: plugins[p].name@,
            },
        ),
{
    let plugin = plugins[p];
    let servers = plugin.mcp_servers@;
    let applies = |entry: (PluginMcpServer, bool)| entry.1;
    let entry = EntryView {
        server: servers[e].0.server,
        overrides: servers[e].0.overrides,
        owner: plugin.name@,
    };
    let own = available(seq![plugin]);
    let (a, b) = (plugins.take(p), plugins.skip(p + 1));
    plugins_add_up(a, seq![plugin], plugin);
    plugins_add_up(a + seq![plugin], b, plugin);
    assert(a + seq![plugin] + b =~= plugins);
    servers.lemma_filter_contains(applies, e);
    let kept = servers.filter(applies);
    let at = choose|at: int| 0 <= at < kept.len() && kept[at] == servers[e];
    assert(own[at] == entry);
    assert(available(plugins)[available(a).len() + at] == entry);
}

/// What a server goes by, and the names the meta-server keeps for itself.
pub proof fn names_are_the_declared_ones(server: McpServer, name: Seq<char>)
    ensures
        name_of(server) == (match server {
            McpServer::Stdio(stdio) => stdio.name@,
            McpServer::Http { name } => name@,
            McpServer::Sse { name } => name@,
            McpServer::Unrecognized => "<unknown>"@,
        }),
        is_reserved(name) <==> name == "list_tools"@ || name == "execute"@,
{
}

/// An entry is refused for a reserved name, else for a name that is claimed,
/// naming who claimed it first, else for not speaking over stdio; any other is
/// accepted.
pub proof fn an_entry_is_refused_for_a_reason(
    entry: EntryView,
    claims: Seq<(Seq<char>, Seq<char>)>,
    i: int,
)
    ensures
        ({
            let name = name_of(entry.server);
            let reserved = name == "list_tools"@ || name == "execute"@;
            let first = 0 <= i < claims.len() && claims[i].0 == name && forall|j: int|
                0 <= j < i ==> (#[trigger] claims[j]).0 != name;
            let free = forall|j: int| 0 <= j < claims.len() ==> (#[trigger] claims[j]).0 != name;
            &&& reserved ==> refusal(entry, claims) == Some(
                "`"@ + entry.owner + "` uses a name reserved by the meta-server"@,
            )
            &&& !reserved && first ==> refusal(entry, claims) == Some(
                "declared by both `"@ + claims[i].1 + "` and `"@ + entry.owner + "`"@,
            )
            &&& !reserved && free && !(entry.server is Stdio) ==> refusal(entry, claims) == Some(
                "only stdio servers are supported"@,
            )
            &&& !reserved && free && entry.server is Stdio ==> refusal(entry, claims) is None
        }),
{
    lemma_first_claim(claims, name_of(entry.server), i);
}

proof fn lemma_first_claim(claims: Seq<(Seq<char>, Seq<char>)>, name: Seq<char>, i: int)
    ensures
        0 <= i < claims.len() && claims[i].0 == name && (forall|j: int|
            0 <= j < i ==> (#[trigger] claims[j]).0 != name) ==> claimant(claims, name) == Some(
            claims[i].1,
        ),
        (forall|j: int| 0 <= j < claims.len() ==> (#[trigger] claims[j]).0 != name) ==> claimant(
            claims,
            name,
        ) is None,
    decreases claims.len(),
{
    if claims.len() > 0 {
        let rest = claims.drop_first();
        lemma_first_claim(rest, name, i - 1);
        if forall|j: int| 0 <= j < claims.len() ==> (#[trigger] claims[j]).0 != name {
            assert(claims[0].0 != name);
            assert forall|j: int| 0 <= j < rest.len() implies (#[trigger] rest[j]).0 != name by {
                assert(rest[j] == claims[j + 1]);
            }
        }
        if 0 < i < claims.len() && claims[i].0 == name && (forall|j: int|
            0 <= j < i ==> (#[trigger] claims[j]).0 != name) {
            assert(claims[0].0 != name);
            assert(rest[i - 1] == claims[i]);
            assert forall|j: int| 0 <= j < i - 1 implies (#[trigger] rest[j]).0 != name by {
                assert(rest[j] == claims[j + 1]);
            }
        }
    }
}

/// Entries are decided one after the other: a further one is either served
/// behind the others, and claims its name for its owner, or rejected behind the
/// others with the reason. What came before it does not change.
pub proof fn entries_are_decided_in_order(
    entries: Seq<EntryView>,
    entry: EntryView,
    script_timeout_secs: u64,
)
    ensures
        claims_of(seq![]).len() == 0,
        rejections_of(seq![]).len() == 0,
        accepted_of(seq![], script_timeout_secs).len() == 0,
        ({
            let more = entries.push(entry);
            let name = name_of(entry.server);
            match refusal(entry, claims_of(entries)) {
                Some(reason) => {
                    &&& claims_of(more) == claims_of(entries)
                    &&& rejections_of(more) == rejections_of(entries).push((name, reason))
                    &&& accepted_of(more, script_timeout_secs) == accepted_of(
                        entries,
                        script_timeout_secs,
                    )
                },
                None => {
                    &&& claims_of(more) == claims_of(entries).push((name, entry.owner))
                    &&& rejections_of(more) == rejections_of(entries)
                    &&& accepted_of(more, script_timeout_secs) == accepted_of(
                        entries,
                        script_timeout_secs,
                    ).push(server_for(entry, script_timeout_secs))
                },
            }
        }),
{
    assert(entries.push(entry).drop_last() =~= entries);
}

/// A served entry is spawned as it was declared, with the user's overrides
/// where there are any: half a minute to start, a minute for a call.
pub proof fn servers_are_spawned_as_declared(
    stdio: StdioServer,
    overrides: McpServerOverrides,
    owner: Seq<char>,
    script_timeout_secs: u64,
)
    ensures
        ({
            let entry = EntryView { server: McpServer::Stdio(stdio), overrides, owner };
            let served = server_for(entry, script_timeout_secs);
            &&& served.name == stdio.name@
            &&& served.command == stdio.command@
            &&& served.args == stdio.args@.map_values(|arg: String| arg@)
            &&& served.env == stdio.env@.map_values(|pair: (String, String)| (pair.0@, pair.1@))
            &&& overrides.startup_timeout_secs is None ==> served.startup_timeout_secs == 30
            &&& overrides.startup_timeout_secs matches Some(secs) ==> served.startup_timeout_secs
                == secs
            &&& served.enabled_tools is Some <==> overrides.enabled_tools is Some
            &&& served.disabled_tools is Some <==> overrides.disabled_tools is Some
            &&& overrides.enabled_tools matches Some(list) ==> served.enabled_tools->Some_0
                == list@.map_values(|tool: String| tool@)
            &&& overrides.disabled_tools matches Some(list) ==> served.disabled_tools->Some_0
                == list@.map_values(|tool: String| tool@)
            &&& served.tool_call_timeout_secs == call_timeout_for(
                overrides.tool_call_timeout_secs,
                script_timeout_secs,
            )
        }),
{
}

/// A call may take as long as is asked for, a minute where nothing is, but
/// always a second less than the script that makes it.
pub proof fn calls_take_what_is_asked_within_the_script(
    requested: Option<u64>,
    script_timeout_secs: u64,
)
    ensures
        ({
            let secs = call_timeout_for(requested, script_timeout_secs);
            let wanted: int = if requested is Some {
                requested->Some_0 as int
            } else {
                60
            };
            &&& script_timeout_secs >= 1 && wanted <= script_timeout_secs - 1 ==> secs == wanted
            &&& script_timeout_secs >= 1 && wanted > script_timeout_secs - 1 ==> secs
                == script_timeout_secs - 1
            &&& script_timeout_secs == 0 && wanted >= 1 ==> secs == 1
            &&& script_timeout_secs == 0 && wanted == 0 ==> secs == 0
        }),
{
}

/// Which tools a server's filters let through: those on the list of enabled
/// ones, where there is one, and else all but those on the list of disabled
/// ones.
pub proof fn filters_let_through_what_they_list(server: ServerView, tool: Seq<char>)
    ensures
        server.enabled_tools matches Some(allow) ==> (server.lets_through(tool) <==> exists|i: int|
            0 <= i < allow.len() && #[trigger] allow[i] == tool),
        server.enabled_tools is None && server.disabled_tools is Some ==> (server.lets_through(tool)
            <==> forall|i: int|
            0 <= i < server.disabled_tools->Some_0.len() ==> #[trigger]
                server.disabled_tools->Some_0[i] != tool),
        server.enabled_tools is None && server.disabled_tools is None ==> server.lets_through(tool),
{
}

/// A resolution serves every entry that is accepted, once each and in the order
/// of their names, and rejects the others in the order they were declared.
pub proof fn a_resolution_holds_every_decision(
    entries: Seq<EntryView>,
    script_timeout_secs: u64,
    resolution: Resolution,
)
    requires
        resolves_to(entries, script_timeout_secs, resolution),
    ensures
        ({
            let accepted = accepted_of(entries, script_timeout_secs);
            let served = resolution.servers@.map_values(|server: ResolvedServer| server@);
            &&& served.len() == accepted.len()
            &&& served.to_multiset() == accepted.to_multiset()
            &&& forall|server: ServerView| #[trigger]
                accepted.contains(server) <==> served.contains(server)
            &&& forall|i: int, j: int|
                0 <= i < j < served.len() ==> text::before(
                    (#[trigger] served[i]).name,
                    (#[trigger] served[j]).name,
                )
            &&& resolution.rejected@.map_values(
                |rejection: Rejection| (rejection.server@, rejection.reason@),
            ) == rejections_of(entries)
        }),
{
    broadcast use vstd::seq_lib::group_to_multiset_ensures;

    let accepted = accepted_of(entries, script_timeout_secs);
    let served = server_views(resolution.servers@);
    assert(served.to_multiset().len() == served.len());
    assert(accepted.to_multiset().len() == accepted.len());
    assert forall|server: ServerView| #[trigger] accepted.contains(server) <==> served.contains(
        server,
    ) by {
        assert(accepted.contains(server) <==> accepted.to_multiset().count(server) > 0);
        assert(served.contains(server) <==> served.to_multiset().count(server) > 0);
    }
}

/// A resolved server, an entry and a rejection hold all of their parts.
pub proof fn servers_hold_their_parts(
    server: ResolvedServer,
    entries: Seq<(&PluginMcpServer, String)>,
    i: int,
)
    ensures
        server@.name == server.spec.name@,
        server@.command == server.spec.command@,
        server@.args == server.spec.args@.map_values(|arg: String| arg@),
        server@.env == server.spec.env@.map_values(|pair: (String, String)| (pair.0@, pair.1@)),
        server@.startup_timeout_secs == server.spec.startup_timeout_secs,
        server@.tool_call_timeout_secs == server.tool_call_timeout_secs,
        server@.enabled_tools is Some <==> server.enabled_tools is Some,
        server.enabled_tools matches Some(list) ==> server@.enabled_tools->Some_0
            == list@.map_values(|tool: String| tool@),
        server@.disabled_tools is Some <==> server.disabled_tools is Some,
        server.disabled_tools matches Some(list) ==> server@.disabled_tools->Some_0
            == list@.map_values(|tool: String| tool@),
        entry_views(entries).len() == entries.len(),
        0 <= i < entries.len() ==> entry_views(entries)[i] == (EntryView {
            server: entries[i].0.server,
            overrides: entries[i].0.overrides,
            owner: entries[i].1@,
        }),
{
}

} // verus!

//! What the workspace's tools look like to the model.
//!
//! `list_tools` answers with an index by default, one line per tool, and full
//! TypeScript declarations only when asked. Truncating a full dump would be
//! lossy and would vary with the workspace; an index is lossless and strictly
//! smaller. A single mainstream server's schemas can fill a whole declaration
//! budget on their own, so this is the common case, not a precaution.
//!
//! Descriptions require a live `tools/list`. The host asks the servers a query
//! wants for their tools and hands the answers in; nothing is started here.

use vstd::prelude::*;

use super::declarations;
use super::declarations::{
    binding_table, identifiers_for, render_under, sanitize, ToolDecl, ToolView,
};
use super::dispatch;
use super::dispatch::{Binding, Namespace, NamespaceView};
use super::glob;
use super::glob::glob_matches;
use super::resolve;
use super::resolve::{Rejection, Resolution, ResolvedServer, ServerView};
use super::schema_to_ts;
use super::schema_to_ts::collect_strings;
use crate::json;
use crate::json::{Json, JsonTree};
use crate::text;
use crate::text::{
    chars_of, contains_text, decimal_string, first_line, join_strings, same_text,
    trimmed,
};

verus! {

// ── queries ──────────────────────────────────────────────────────────

/// How much to say about each tool.
#[derive(Debug, Clone, Copy, PartialEq, Eq, Structural)]
pub enum Detail {
    /// Name and description. Enough to choose; not enough to call.
    Names,
    /// One TypeScript signature per tool.
    Signatures,
    /// Full declarations, including the types parameters refer to.
    Full,
}

impl Default for Detail {
    fn default() -> (detail: Self)
        ensures
            detail == Detail::Names,
    {
        Detail::Names
    }
}

/// The level a word asks for; anything unrecognized asks for names.
pub open spec fn detail_for(word: Option<Seq<char>>) -> Detail {
    if word == Some("signatures"@) {
        Detail::Signatures
    } else if word == Some("full"@) {
        Detail::Full
    } else {
        Detail::Names
    }
}

impl Detail {
    pub fn parse(value: Option<&str>) -> (detail: Self)
        ensures
            detail == detail_for(
                match value {
                    Some(word) => Some(word@),
                    None => None,
                },
            ),
    {
        match value {
            Some(word) => {
                proof {
                    reveal_strlit("signatures");
                    reveal_strlit("full");
                    assert("signatures"@.len() != "full"@.len());
                }
                if same_text(word, "signatures") {
                    Detail::Signatures
                } else if same_text(word, "full") {
                    Detail::Full
                } else {
                    Detail::Names
                }
            },
            None => Detail::Names,
        }
    }
}

/// Which tools to describe.
#[derive(Debug, Clone, PartialEq, Eq)]
pub struct Query {
    pub servers: Option<Vec<String>>,
    pub tools: Option<Vec<String>>,
    pub pattern: Option<String>,
    pub detail: Detail,
}

/// What a query asks for.
#[verifier::ext_equal]
pub struct QueryView {
    pub servers: Option<Seq<Seq<char>>>,
    pub tools: Option<Seq<Seq<char>>>,
    pub pattern: Option<Seq<char>>,
    pub detail: Detail,
}

impl View for Query {
    type V = QueryView;

    open spec fn view(&self) -> QueryView {
        QueryView {
            servers: resolve::optional_texts(self.servers),
            tools: resolve::optional_texts(self.tools),
            pattern: text::optional_text(self.pattern),
            detail: self.detail,
        }
    }
}

impl QueryView {
    /// Naming specific servers or tools implies wanting their details.
    pub open spec fn effective_detail(self) -> Detail {
        if self.detail == Detail::Names && (self.servers is Some || self.tools is Some) {
            Detail::Full
        } else {
            self.detail
        }
    }

    /// Whether the query asks about a server.
    pub open spec fn wants_server(self, name: Seq<char>) -> bool {
        self.servers matches Some(only) ==> only.contains(name)
    }

    /// Whether the query asks about a tool: one it lists, where it lists any,
    /// that its pattern matches, where it has one.
    pub open spec fn wants_tool(self, name: Seq<char>) -> bool {
        &&& self.tools matches Some(only) ==> only.contains(name)
        &&& self.pattern matches Some(pattern) ==> glob::globs(pattern, name)
    }

    /// Whether the query leaves tools of a server out.
    pub open spec fn narrows(self) -> bool {
        self.tools is Some || self.pattern is Some
    }
}

impl Default for Query {
    fn default() -> (query: Self)
        ensures
            query@ == (QueryView {
                servers: None,
                tools: None,
                pattern: None,
                detail: Detail::Names,
            }),
    {
        Query { servers: None, tools: None, pattern: None, detail: Detail::Names }
    }
}

/// The strings of a JSON array; anything but an array is no list.
pub open spec fn list_in(value: Option<JsonTree>) -> Option<Seq<Seq<char>>> {
    match value {
        Some(JsonTree::Array(items)) => Some(schema_to_ts::strings_in(items)),
        _ => None,
    }
}

/// The text of a JSON string; anything but a string is no text.
pub open spec fn text_in(value: Option<JsonTree>) -> Option<Seq<char>> {
    match value {
        Some(value) => value.as_str(),
        None => None,
    }
}

/// The query some arguments ask for.
pub open spec fn query_in(args: JsonTree) -> QueryView {
    QueryView {
        servers: list_in(args.get("servers"@)),
        tools: list_in(args.get("tools"@)),
        pattern: text_in(args.get("pattern"@)),
        detail: detail_for(text_in(args.get("detail"@))),
    }
}

/// The strings of a JSON array, where there is one.
fn string_list(value: Option<&Json>) -> (list: Option<Vec<String>>)
    ensures
        resolve::optional_texts(list) == list_in(json::optional_tree(value)),
{
    match value {
        Some(Json::Array(items)) => Some(collect_strings(items)),
        _ => None,
    }
}

/// The text of a JSON string, where there is one.
fn string_in(value: Option<&Json>) -> (text: Option<&str>)
    ensures
        text is Some <==> text_in(json::optional_tree(value)) is Some,
        text matches Some(text) ==> text_in(json::optional_tree(value)) == Some(text@),
{
    match value {
        Some(value) => value.as_str(),
        None => None,
    }
}

impl Query {
    /// Read a query from the tool's arguments, ignoring anything unrecognized.
    pub fn from_arguments(args: &Json) -> (query: Self)
        ensures
            query@ == query_in(args@),
    {
        let pattern: Option<String> = match string_in(args.get("pattern")) {
            Some(pattern) => Some(pattern.to_string()),
            None => None,
        };
        Query {
            servers: string_list(args.get("servers")),
            tools: string_list(args.get("tools")),
            pattern,
            detail: Detail::parse(string_in(args.get("detail"))),
        }
    }

    /// Naming specific servers or tools implies wanting their details.
    pub fn effective_detail(&self) -> (detail: Detail)
        ensures
            detail == self@.effective_detail(),
    {
        if self.detail == Detail::Names && (self.servers.is_some() || self.tools.is_some()) {
            Detail::Full
        } else {
            self.detail
        }
    }

    /// Whether the query asks about a server.
    pub fn wants_server(&self, name: &str) -> (yes: bool)
        ensures
            yes == self@.wants_server(name@),
    {
        match &self.servers {
            Some(only) => contains_text(only.as_slice(), name),
            None => true,
        }
    }

    /// Whether the query asks about a tool.
    pub fn wants_tool(&self, name: &str) -> (yes: bool)
        ensures
            yes == self@.wants_tool(name@),
    {
        if let Some(only) = &self.tools {
            if !contains_text(only.as_slice(), name) {
                return false;
            }
        }
        match &self.pattern {
            Some(pattern) => glob_matches(pattern.as_str(), name),
            None => true,
        }
    }
}

/// Whether a query leaves tools of a server out.
fn query_narrows(query: &Query) -> (yes: bool)
    ensures
        yes == query@.narrows(),
{
    query.tools.is_some() || query.pattern.is_some()
}

// ── tools ────────────────────────────────────────────────────────────

/// A tool as its server lists it.
#[derive(Debug, Clone, PartialEq)]
pub struct ToolInfo {
    pub name: String,
    pub description: Option<String>,
    pub input_schema: Json,
    /// What the server says of whether the tool changes anything; it need not
    /// say.
    pub read_only_hint: Option<bool>,
}

/// What a server lists of a tool.
#[verifier::ext_equal]
pub struct ToolInfoView {
    pub name: Seq<char>,
    pub description: Option<Seq<char>>,
    pub input_schema: JsonTree,
    pub read_only_hint: Option<bool>,
}

impl View for ToolInfo {
    type V = ToolInfoView;

    open spec fn view(&self) -> ToolInfoView {
        ToolInfoView {
            name: self.name@,
            description: text::optional_text(self.description),
            input_schema: self.input_schema@,
            read_only_hint: self.read_only_hint,
        }
    }
}

/// What a server lists of some tools.
pub open spec fn info_views(tools: Seq<ToolInfo>) -> Seq<ToolInfoView> {
    tools.map_values(|tool: ToolInfo| tool@)
}

/// What a server lists of some tools picked from its list.
pub open spec fn picked_views(tools: Seq<&ToolInfo>) -> Seq<ToolInfoView> {
    tools.map_values(|tool: &ToolInfo| tool@)
}

/// What a server answered when asked for its tools.
pub type Listing = Result<Vec<ToolInfo>, String>;

/// What an answer holds.
pub open spec fn listing_view(listing: Listing) -> Result<Seq<ToolInfoView>, Seq<char>> {
    match listing {
        Ok(tools) => Ok(info_views(tools@)),
        Err(problem) => Err(problem@),
    }
}

/// What some answers hold.
pub open spec fn listing_views(listings: Seq<Listing>) -> Seq<Result<Seq<ToolInfoView>, Seq<char>>> {
    listings.map_values(|listing: Listing| listing_view(listing))
}

/// Whether a server declares that a tool changes nothing.
fn is_read_only(tool: &ToolInfo) -> (yes: bool)
    ensures
        yes == (tool@.read_only_hint == Some(true)),
{
    match tool.read_only_hint {
        Some(hint) => hint,
        None => false,
    }
}

/// Whether a workspace shows a tool: the plugin's filters let it through, and
/// where only reading is allowed, its server declares that it only reads.
pub open spec fn shows(server: ServerView, read_only: bool, tool: ToolInfoView) -> bool {
    server.lets_through(tool.name) && (read_only ==> tool.read_only_hint == Some(true))
}

/// The tools a workspace shows of a server's list, in the order listed.
pub open spec fn shown_of(
    server: ServerView,
    read_only: bool,
    tools: Seq<ToolInfoView>,
) -> Seq<ToolInfoView>
    decreases tools.len(),
{
    if tools.len() == 0 {
        seq![]
    } else {
        let earlier = shown_of(server, read_only, tools.drop_last());
        if shows(server, read_only, tools.last()) {
            earlier.push(tools.last())
        } else {
            earlier
        }
    }
}

/// The names of some tools.
pub open spec fn info_names(tools: Seq<ToolInfoView>) -> Seq<Seq<char>> {
    tools.map_values(|tool: ToolInfoView| tool.name)
}

/// A tool and the identifier assigned to it among all the tools shown.
#[verifier::ext_equal]
pub struct KeyedTool {
    pub tool: ToolInfoView,
    pub identifier: Seq<char>,
}

/// Each of the tools shown with the identifier assigned to it among them all.
pub open spec fn keyed(tools: Seq<ToolInfoView>) -> Seq<KeyedTool> {
    Seq::new(
        tools.len(),
        |i: int|
            KeyedTool {
                tool: tools[i],
                identifier: declarations::assigned_all(info_names(tools))[i],
            },
    )
}

/// The tools, without their identifiers.
pub open spec fn tools_in(tools: Seq<KeyedTool>) -> Seq<ToolInfoView> {
    tools.map_values(|entry: KeyedTool| entry.tool)
}

/// The identifiers, without their tools.
pub open spec fn identifiers_in(tools: Seq<KeyedTool>) -> Seq<Seq<char>> {
    tools.map_values(|entry: KeyedTool| entry.identifier)
}

/// The tools among `tools` that a query asks about, in the order listed. Each
/// keeps the identifier it has among all the tools shown.
pub open spec fn wanted_of(query: QueryView, tools: Seq<KeyedTool>) -> Seq<KeyedTool>
    decreases tools.len(),
{
    if tools.len() == 0 {
        seq![]
    } else {
        let earlier = wanted_of(query, tools.drop_last());
        if query.wants_tool(tools.last().tool.name) {
            earlier.push(tools.last())
        } else {
            earlier
        }
    }
}

/// The tools a workspace shows of a server's list.
fn shown<'a>(server: &ResolvedServer, read_only: bool, tools: &'a Vec<ToolInfo>) -> (visible: Vec<
    &'a ToolInfo,
>)
    ensures
        picked_views(visible@) == shown_of(server@, read_only, info_views(tools@)),
{
    let ghost infos = info_views(tools@);
    let mut visible: Vec<&'a ToolInfo> = Vec::new();
    let mut i: usize = 0;
    assert(picked_views(visible@) =~= shown_of(server@, read_only, infos.take(0)));
    while i < tools.len()
        invariant
            i <= tools@.len(),
            infos == info_views(tools@),
            picked_views(visible@) == shown_of(server@, read_only, infos.take(i as int)),
        decreases tools@.len() - i,
    {
        let tool = &tools[i];
        let ghost earlier = picked_views(visible@);
        assert(infos.take(i + 1).drop_last() =~= infos.take(i as int));
        assert(infos.take(i + 1).last() == tool@);
        if server.exposes(tool.name.as_str()) && (!read_only || is_read_only(tool)) {
            visible.push(tool);
            assert(picked_views(visible@) =~= earlier.push(tool@));
        }
        i += 1;
    }
    assert(infos.take(i as int) =~= infos);
    visible
}

/// The tools among those shown that a query asks about, and the identifiers
/// assigned to them among all of those.
fn wanted<'a>(query: &Query, tools: &Vec<&'a ToolInfo>) -> (matching: (
    Vec<&'a ToolInfo>,
    Vec<String>,
))
    ensures
        matching.0@.len() == matching.1@.len(),
        picked_views(matching.0@) == tools_in(
            wanted_of(query@, keyed(picked_views(tools@))),
        ),
        text::texts(matching.1@) == identifiers_in(
            wanted_of(query@, keyed(picked_views(tools@))),
        ),
{
    let ghost infos = picked_views(tools@);
    let ghost all = keyed(infos);
    let assigned = identifiers_for(&names_of(tools));
    let mut matching: Vec<&'a ToolInfo> = Vec::new();
    let mut identifiers: Vec<String> = Vec::new();
    let mut i: usize = 0;
    proof {
        assert(picked_views(matching@) =~= tools_in(wanted_of(query@, all.take(0))));
        assert(text::texts(identifiers@) =~= identifiers_in(wanted_of(query@, all.take(0))));
    }
    while i < tools.len()
        invariant
            i <= tools@.len(),
            infos == picked_views(tools@),
            all == keyed(infos),
            assigned@.len() == tools@.len(),
            text::texts(assigned@) == declarations::assigned_all(info_names(infos)),
            matching@.len() == identifiers@.len(),
            picked_views(matching@) == tools_in(wanted_of(query@, all.take(i as int))),
            text::texts(identifiers@) == identifiers_in(
                wanted_of(query@, all.take(i as int)),
            ),
        decreases tools@.len() - i,
    {
        let tool = tools[i];
        let ghost earlier = wanted_of(query@, all.take(i as int));
        let ghost picked = picked_views(matching@);
        let ghost known = text::texts(identifiers@);
        let ghost entry = all[i as int];
        proof {
            assert(all.take(i + 1).drop_last() =~= all.take(i as int));
            assert(all.take(i + 1).last() == entry);
            assert(entry.tool == tool@);
            assert(entry.identifier == text::texts(assigned@)[i as int]);
        }
        if query.wants_tool(tool.name.as_str()) {
            matching.push(tool);
            identifiers.push(assigned[i].clone());
            proof {
                assert(picked_views(matching@) =~= picked.push(entry.tool));
                assert(text::texts(identifiers@) =~= known.push(entry.identifier));
                assert(tools_in(earlier.push(entry)) =~= tools_in(earlier).push(entry.tool));
                assert(identifiers_in(earlier.push(entry)) =~= identifiers_in(earlier).push(
                    entry.identifier,
                ));
            }
        }
        i += 1;
    }
    assert(all.take(i as int) =~= all);
    (matching, identifiers)
}

// ── rendering ────────────────────────────────────────────────────────

/// The line of an index one tool gets: its name, and the first line of its
/// description where it has one that says anything.
pub open spec fn index_line(tool: ToolInfoView) -> Seq<char> {
    match tool.description {
        Some(description) => {
            let said = text::trim(description);
            if said.len() > 0 {
                "  "@ + tool.name + " - "@ + text::first_line_of(said) + "\n"@
            } else {
                "  "@ + tool.name + "\n"@
            }
        },
        None => "  "@ + tool.name + "\n"@,
    }
}

/// The index lines of some tools.
pub open spec fn index_lines(tools: Seq<ToolInfoView>) -> Seq<char>
    decreases tools.len(),
{
    if tools.len() == 0 {
        seq![]
    } else {
        index_lines(tools.drop_last()) + index_line(tools.last())
    }
}

/// A tool as it is declared.
pub open spec fn declared_as(tool: ToolInfoView) -> ToolView {
    ToolView {
        name: tool.name,
        description: tool.description,
        schema: Some(tool.input_schema),
    }
}

/// Some tools as they are declared.
pub open spec fn all_declared_as(tools: Seq<ToolInfoView>) -> Seq<ToolView> {
    tools.map_values(|tool: ToolInfoView| declared_as(tool))
}

/// What is said of a server's tools. Signatures name the parameter; full
/// declarations spell out its shape.
pub open spec fn section_text(
    server: Seq<char>,
    tools: Seq<KeyedTool>,
    detail: Detail,
) -> Seq<char> {
    if detail == Detail::Names {
        server + ":\n"@ + index_lines(tools_in(tools))
    } else {
        declarations::text_under(
            server,
            all_declared_as(tools_in(tools)),
            identifiers_in(tools),
            detail == Detail::Full,
        )
    }
}

/// Add one tool's index line.
fn push_index_line(out: &mut String, tool: &ToolInfo)
    ensures
        final(out)@ == old(out)@ + index_line(tool@),
{
    let ghost was = out@;
    out.append("  ");
    out.append(tool.name.as_str());
    if let Some(description) = &tool.description {
        let chars = chars_of(description.as_str());
        let said = trimmed(chars.as_slice(), 0, chars.len());
        assert(chars@.subrange(0, chars@.len() as int) =~= description@);
        if said.as_str().is_empty() {
            out.append("\n");
            assert(out@ =~= was + index_line(tool@));
        } else {
            out.append(" - ");
            out.append(first_line(said.as_str()).as_str());
            out.append("\n");
            assert(out@ =~= was + index_line(tool@));
        }
    } else {
        out.append("\n");
        assert(out@ =~= was + index_line(tool@));
    }
}

/// Say as much as asked about a server's tools, declaring each under the
/// identifier given for it.
fn render(
    server: &str,
    tools: &Vec<&ToolInfo>,
    identifiers: &Vec<String>,
    detail: Detail,
) -> (section: String)
    requires
        identifiers@.len() == tools@.len(),
    ensures
        section@ == (if detail == Detail::Names {
            server@ + ":\n"@ + index_lines(picked_views(tools@))
        } else {
            declarations::text_under(
                server@,
                all_declared_as(picked_views(tools@)),
                text::texts(identifiers@),
                detail == Detail::Full,
            )
        }),
{
    let ghost infos = picked_views(tools@);
    let mut i: usize = 0;
    if detail == Detail::Names {
        let mut out = server.to_string();
        out.append(":\n");
        let ghost head = out@;
        assert(out@ =~= head + index_lines(infos.take(0)));
        while i < tools.len()
            invariant
                i <= tools@.len(),
                infos == picked_views(tools@),
                out@ == head + index_lines(infos.take(i as int)),
            decreases tools@.len() - i,
        {
            assert(infos.take(i + 1).drop_last() =~= infos.take(i as int));
            assert(infos.take(i + 1).last() == tools@[i as int]@);
            let ghost was = index_lines(infos.take(i as int));
            push_index_line(&mut out, tools[i]);
            assert(out@ =~= head + (was + index_line(tools@[i as int]@)));
            i += 1;
        }
        assert(infos.take(i as int) =~= infos);
        return out;
    }
    let mut decls: Vec<ToolDecl> = Vec::new();
    while i < tools.len()
        invariant
            i <= tools@.len(),
            infos == picked_views(tools@),
            decls@.len() == i,
            declarations::tool_views(decls@) == all_declared_as(infos).take(i as int),
        decreases tools@.len() - i,
    {
        let tool = tools[i];
        let ghost earlier = declarations::tool_views(decls@);
        let description: Option<&str> = match &tool.description {
            Some(description) => Some(description.as_str()),
            None => None,
        };
        let decl = ToolDecl {
            name: tool.name.as_str(),
            description,
            input_schema: Some(&tool.input_schema),
        };
        assert(decl@ == declared_as(tool@));
        decls.push(decl);
        assert(declarations::tool_views(decls@) =~= earlier.push(decl@));
        i += 1;
    }
    assert(all_declared_as(infos).take(i as int) =~= all_declared_as(infos));
    // Signatures name the parameter; full spells out its shape.
    render_under(server, decls.as_slice(), identifiers.as_slice(), detail == Detail::Full)
}

// ── the catalog ──────────────────────────────────────────────────────

/// The workspace's backing servers, described on demand.
#[derive(Debug)]
pub struct Catalog {
    servers: Vec<ResolvedServer>,
    read_only: bool,
    /// Servers that could not be used at all. Reported to the model rather
    /// than only logged: a server silently missing looks like a workspace
    /// that never declared it.
    rejected: Vec<Rejection>,
}

/// What a catalog holds.
pub struct CatalogView {
    pub servers: Seq<ServerView>,
    pub read_only: bool,
    pub rejected: Seq<(Seq<char>, Seq<char>)>,
}

impl View for Catalog {
    type V = CatalogView;

    closed spec fn view(&self) -> CatalogView {
        CatalogView {
            servers: resolve::server_views(self.servers@),
            read_only: self.read_only,
            rejected: resolve::rejection_views(self.rejected@),
        }
    }
}

impl CatalogView {
    /// The names of the servers, in order.
    pub open spec fn names(self) -> Seq<Seq<char>> {
        self.servers.map_values(|server: ServerView| server.name)
    }
}

/// A problem with a server, under the server's name.
pub open spec fn problem_text(server: Seq<char>, problem: Seq<char>) -> Seq<char> {
    server + ": "@ + problem
}

/// The problems of the servers that could not be used at all.
pub open spec fn refusals(rejected: Seq<(Seq<char>, Seq<char>)>) -> Seq<Seq<char>> {
    rejected.map_values(|rejection: (Seq<char>, Seq<char>)| problem_text(rejection.0, rejection.1))
}

/// What is said of a server that shows tools the query asks about.
pub open spec fn section_of(
    server: ServerView,
    read_only: bool,
    query: QueryView,
    listing: Result<Seq<ToolInfoView>, Seq<char>>,
) -> Option<Seq<char>> {
    match listing {
        Ok(tools) => {
            let visible = wanted_of(query, keyed(shown_of(server, read_only, tools)));
            if query.wants_server(server.name) && visible.len() > 0 {
                Some(section_text(server.name, visible, query.effective_detail()))
            } else {
                None
            }
        },
        Err(_) => None,
    }
}

/// What is wrong with a server the query asks about: it did not answer, or
/// everything it lists is hidden. The latter would read as a broken
/// connection, but for a query that asks for some tools only.
pub open spec fn problem_of(
    server: ServerView,
    read_only: bool,
    query: QueryView,
    listing: Result<Seq<ToolInfoView>, Seq<char>>,
) -> Option<Seq<char>> {
    if !query.wants_server(server.name) {
        None
    } else {
        match listing {
            Ok(tools) => {
                let visible = wanted_of(query, keyed(shown_of(server, read_only, tools)));
                if visible.len() == 0 && tools.len() > 0 && !query.narrows() {
                    Some(
                        problem_text(
                            server.name,
                            "no tools visible ("@ + text::decimal(tools.len())
                                + " hidden by filters)"@,
                        ),
                    )
                } else {
                    None
                }
            },
            Err(problem) => Some(problem_text(server.name, problem)),
        }
    }
}

/// Add what there is to add.
pub open spec fn with(texts: Seq<Seq<char>>, more: Option<Seq<char>>) -> Seq<Seq<char>> {
    match more {
        Some(text) => texts.push(text),
        None => texts,
    }
}

/// What is said of each of the first `n` servers that has something to show.
pub open spec fn sections_of(
    catalog: CatalogView,
    query: QueryView,
    listings: Seq<Result<Seq<ToolInfoView>, Seq<char>>>,
    n: int,
) -> Seq<Seq<char>>
    decreases n,
{
    if n <= 0 {
        seq![]
    } else {
        with(
            sections_of(catalog, query, listings, n - 1),
            section_of(catalog.servers[n - 1], catalog.read_only, query, listings[n - 1]),
        )
    }
}

/// What is wrong with each of the first `n` servers that has a problem.
pub open spec fn problems_of(
    catalog: CatalogView,
    query: QueryView,
    listings: Seq<Result<Seq<ToolInfoView>, Seq<char>>>,
    n: int,
) -> Seq<Seq<char>>
    decreases n,
{
    if n <= 0 {
        seq![]
    } else {
        with(
            problems_of(catalog, query, listings, n - 1),
            problem_of(catalog.servers[n - 1], catalog.read_only, query, listings[n - 1]),
        )
    }
}

/// What is said of a server name nothing goes by.
pub open spec fn unknown_server(name: Seq<char>, names: Seq<Seq<char>>) -> Seq<char> {
    "no server named `"@ + name + "`. Available: "@ + text::join(names, ", "@)
}

/// What is said of the requested names nothing goes by: naming a server that
/// does not exist is a mistake worth surfacing rather than answering with
/// silence.
pub open spec fn unknown_of(requested: Seq<Seq<char>>, names: Seq<Seq<char>>) -> Seq<Seq<char>>
    decreases requested.len(),
{
    if requested.len() == 0 {
        seq![]
    } else {
        let earlier = unknown_of(requested.drop_last(), names);
        if names.contains(requested.last()) {
            earlier
        } else {
            earlier.push(unknown_server(requested.last(), names))
        }
    }
}

/// Every problem a description reports. Refusals come first: they explain an
/// absence the model would otherwise have to infer.
pub open spec fn all_problems(
    catalog: CatalogView,
    query: QueryView,
    listings: Seq<Result<Seq<ToolInfoView>, Seq<char>>>,
) -> Seq<Seq<char>> {
    refusals(catalog.rejected) + problems_of(
        catalog,
        query,
        listings,
        catalog.servers.len() as int,
    ) + (match query.servers {
        Some(requested) => unknown_of(requested, catalog.names()),
        None => seq![],
    })
}

/// Each text on an indented line of its own.
pub open spec fn problem_lines(problems: Seq<Seq<char>>) -> Seq<char>
    decreases problems.len(),
{
    if problems.len() == 0 {
        seq![]
    } else {
        problem_lines(problems.drop_last()) + "  "@ + problems.last() + "\n"@
    }
}

/// Sections, with the problems behind them.
pub open spec fn laid_out(sections: Seq<Seq<char>>, problems: Seq<Seq<char>>) -> Seq<char> {
    let described = text::join(sections, "\n"@);
    if sections.len() == 0 && problems.len() == 0 {
        "No tools matched."@
    } else if problems.len() == 0 {
        described
    } else {
        described + (if described.len() > 0 {
            "\n"@
        } else {
            ""@
        }) + "Problems:\n"@ + problem_lines(problems)
    }
}

/// What a query is answered with, given each server's answer.
pub open spec fn description_of(
    catalog: CatalogView,
    query: QueryView,
    listings: Seq<Result<Seq<ToolInfoView>, Seq<char>>>,
) -> Seq<char> {
    if catalog.servers.len() == 0 && catalog.rejected.len() == 0 {
        "No MCP servers apply to this workspace."@
    } else {
        laid_out(
            sections_of(catalog, query, listings, catalog.servers.len() as int),
            all_problems(catalog, query, listings),
        )
    }
}

/// A problem with a server, under the server's name.
fn problem_string(server: &str, problem: &str) -> (text: String)
    ensures
        text@ == problem_text(server@, problem@),
{
    let mut text = server.to_string();
    text.append(": ");
    text.append(problem);
    text
}

/// What is said of a server name nothing goes by.
fn unknown_string(name: &str, names: &Vec<String>) -> (text: String)
    ensures
        text@ == unknown_server(name@, text::texts(names@)),
{
    let mut text = "no server named `".to_string();
    text.append(name);
    text.append("`. Available: ");
    text.append(join_strings(names.as_slice(), ", ").as_str());
    text
}

/// Sections, with the problems behind them.
fn lay_out(sections: &Vec<String>, problems: &Vec<String>) -> (out: String)
    ensures
        out@ == laid_out(text::texts(sections@), text::texts(problems@)),
{
    let ghost texts = text::texts(problems@);
    if sections.len() == 0 && problems.len() == 0 {
        return "No tools matched.".to_string();
    }
    let mut out = join_strings(sections.as_slice(), "\n");
    if problems.len() == 0 {
        return out;
    }
    proof {
        reveal_strlit("");
    }
    if !out.as_str().is_empty() {
        out.append("\n");
    }
    out.append("Problems:\n");
    let ghost head = out@;
    let mut i: usize = 0;
    assert(out@ =~= head + problem_lines(texts.take(0)));
    while i < problems.len()
        invariant
            i <= problems@.len(),
            texts == text::texts(problems@),
            out@ == head + problem_lines(texts.take(i as int)),
        decreases problems@.len() - i,
    {
        assert(texts.take(i + 1).drop_last() =~= texts.take(i as int));
        let ghost was = problem_lines(texts.take(i as int));
        out.append("  ");
        out.append(problems[i].as_str());
        out.append("\n");
        assert(out@ =~= head + (was + "  "@ + texts[i as int] + "\n"@));
        i += 1;
    }
    assert(texts.take(i as int) =~= texts);
    out
}

impl Catalog {
    pub fn new(resolution: Resolution, read_only: bool) -> (catalog: Self)
        ensures
            catalog@.servers == resolve::server_views(resolution.servers@),
            catalog@.read_only == read_only,
            catalog@.rejected == resolve::rejection_views(resolution.rejected@),
    {
        Catalog { servers: resolution.servers, read_only, rejected: resolution.rejected }
    }

    /// The names of the servers, in order.
    pub fn server_names(&self) -> (names: Vec<String>)
        ensures
            text::texts(names@) == self@.names(),
    {
        let mut names: Vec<String> = Vec::new();
        let mut i: usize = 0;
        while i < self.servers.len()
            invariant
                i <= self.servers@.len(),
                text::texts(names@) == self@.names().take(i as int),
            decreases self.servers@.len() - i,
        {
            let ghost earlier = text::texts(names@);
            assert(self@.names()[i as int] == self.servers@[i as int]@.name);
            names.push(self.servers[i].name().to_string());
            assert(text::texts(names@) =~= earlier.push(self@.names()[i as int]));
            i += 1;
        }
        assert(self@.names().take(i as int) =~= self@.names());
        names
    }

    pub fn is_empty(&self) -> (yes: bool)
        ensures
            yes == (self@.servers.len() == 0),
    {
        self.servers.len() == 0
    }

    /// Whether some server could not be used at all.
    pub fn has_refusals(&self) -> (yes: bool)
        ensures
            yes == (self@.rejected.len() > 0),
    {
        self.rejected.len() > 0
    }

    /// The `index`-th server.
    pub fn server(&self, index: usize) -> (server: Option<&ResolvedServer>)
        ensures
            server is Some <==> index < self@.servers.len(),
            server matches Some(server) ==> server@ == self@.servers[index as int],
    {
        if index < self.servers.len() {
            assert(self@.servers[index as int] == self.servers@[index as int]@);
            Some(&self.servers[index])
        } else {
            None
        }
    }

    /// Whether describing the answer to `query` needs the `index`-th server's
    /// tools, so only the servers a query asks about are started for it.
    pub fn needs(&self, query: &Query, index: usize) -> (yes: bool)
        ensures
            yes == (index < self@.servers.len() && query@.wants_server(
                self@.servers[index as int].name,
            )),
    {
        index < self.servers.len() && query.wants_server(self.servers[index].name())
    }

    /// Describe the matching tools, given what each server answered when asked
    /// for its tools. What stands for a server the query does not ask about is
    /// not looked at.
    pub fn describe(&self, query: &Query, listings: &Vec<Listing>) -> (description: String)
        requires
            listings@.len() == self@.servers.len(),
        ensures
            description@ == description_of(self@, query@, listing_views(listings@)),
    {
        let ghost answers = listing_views(listings@);
        if self.servers.len() == 0 && self.rejected.len() == 0 {
            return "No MCP servers apply to this workspace.".to_string();
        }
        let mut sections: Vec<String> = Vec::new();
        let mut problems = self.refused();
        let ghost head = text::texts(problems@);
        let mut i: usize = 0;
        assert(text::texts(sections@) =~= sections_of(self@, query@, answers, 0));
        assert(text::texts(problems@) =~= head + problems_of(self@, query@, answers, 0));
        while i < self.servers.len()
            invariant
                i <= self.servers@.len(),
                listings@.len() == self.servers@.len(),
                answers == listing_views(listings@),
                text::texts(sections@) == sections_of(self@, query@, answers, i as int),
                text::texts(problems@) == head + problems_of(self@, query@, answers, i as int),
            decreases self.servers@.len() - i,
        {
            let ghost said = text::texts(sections@);
            let ghost wrong = problems_of(self@, query@, answers, i as int);
            assert(self@.servers[i as int] == self.servers@[i as int]@);
            assert(answers[i as int] == listing_view(listings@[i as int]));
            let (section, problem) = self.look_at(i, query, &listings[i]);
            if let Some(section) = section {
                sections.push(section);
                assert(text::texts(sections@) =~= said.push(section@));
            }
            if let Some(problem) = problem {
                let ghost was = text::texts(problems@);
                problems.push(problem);
                assert(text::texts(problems@) =~= was.push(problem@));
                assert(text::texts(problems@) =~= head + wrong.push(problem@));
            }
            i += 1;
        }
        self.name_unknown(query, &mut problems);
        assert(text::texts(problems@) =~= all_problems(self@, query@, answers));
        lay_out(&sections, &problems)
    }

    /// The problems of the servers that could not be used at all.
    fn refused(&self) -> (problems: Vec<String>)
        ensures
            text::texts(problems@) == refusals(self@.rejected),
    {
        let mut problems: Vec<String> = Vec::new();
        let mut i: usize = 0;
        while i < self.rejected.len()
            invariant
                i <= self.rejected@.len(),
                text::texts(problems@) == refusals(self@.rejected).take(i as int),
            decreases self.rejected@.len() - i,
        {
            let ghost earlier = text::texts(problems@);
            let rejection = &self.rejected[i];
            assert(self@.rejected[i as int] == (rejection.server@, rejection.reason@));
            problems.push(
                problem_string(rejection.server.as_str(), rejection.reason.as_str()),
            );
            assert(text::texts(problems@) =~= earlier.push(refusals(self@.rejected)[i as int]));
            i += 1;
        }
        assert(refusals(self@.rejected).take(i as int) =~= refusals(self@.rejected));
        problems
    }

    /// What is said of the `index`-th server, and what is wrong with it.
    fn look_at(&self, index: usize, query: &Query, listing: &Listing) -> (seen: (
        Option<String>,
        Option<String>,
    ))
        requires
            index < self@.servers.len(),
        ensures
            text::optional_text(seen.0) == section_of(
                self@.servers[index as int],
                self@.read_only,
                query@,
                listing_view(*listing),
            ),
            text::optional_text(seen.1) == problem_of(
                self@.servers[index as int],
                self@.read_only,
                query@,
                listing_view(*listing),
            ),
    {
        let server = &self.servers[index];
        assert(self@.servers[index as int] == server@);
        if !query.wants_server(server.name()) {
            return (None, None);
        }
        let tools = match listing {
            Ok(tools) => tools,
            Err(problem) => {
                // A server that will not start is reported in place, so the
                // absence of its tools has a visible reason.
                return (None, Some(problem_string(server.name(), problem.as_str())));
            },
        };
        let (visible, identifiers) = wanted(query, &shown(server, self.read_only, tools));
        let ghost matching = wanted_of(
            query@,
            keyed(shown_of(server@, self.read_only, info_views(tools@))),
        );
        assert(tools_in(matching).len() == visible@.len());
        if visible.len() > 0 {
            let section = render(
                server.name(),
                &visible,
                &identifiers,
                query.effective_detail(),
            );
            return (Some(section), None);
        }
        if tools.len() > 0 && !query_narrows(query) {
            let mut problem = "no tools visible (".to_string();
            problem.append(decimal_string(tools.len() as u128).as_str());
            problem.append(" hidden by filters)");
            return (None, Some(problem_string(server.name(), problem.as_str())));
        }
        (None, None)
    }

    /// Report the requested server names nothing goes by.
    fn name_unknown(&self, query: &Query, problems: &mut Vec<String>)
        ensures
            text::texts(final(problems)@) == text::texts(old(problems)@) + (
            match query@.servers {
                Some(requested) => unknown_of(requested, self@.names()),
                None => seq![],
            }),
    {
        let ghost head = text::texts(problems@);
        if let Some(requested) = &query.servers {
            let ghost asked = text::texts(requested@);
            let names = self.server_names();
            let mut i: usize = 0;
            assert(text::texts(problems@) =~= head + unknown_of(asked.take(0), self@.names()));
            while i < requested.len()
                invariant
                    i <= requested@.len(),
                    asked == text::texts(requested@),
                    text::texts(names@) == self@.names(),
                    text::texts(problems@) == head + unknown_of(
                        asked.take(i as int),
                        self@.names(),
                    ),
                decreases requested@.len() - i,
            {
                let ghost earlier = unknown_of(asked.take(i as int), self@.names());
                assert(asked.take(i + 1).drop_last() =~= asked.take(i as int));
                assert(asked.take(i + 1).last() == requested@[i as int]@);
                let name = requested[i].as_str();
                if !contains_text(names.as_slice(), name) {
                    let ghost was = text::texts(problems@);
                    problems.push(unknown_string(name, &names));
                    assert(text::texts(problems@) =~= was.push(
                        unknown_server(name@, self@.names()),
                    ));
                    assert(text::texts(problems@) =~= head + earlier.push(
                        unknown_server(name@, self@.names()),
                    ));
                }
                i += 1;
            }
            assert(asked.take(i as int) =~= asked);
        } else {
            assert(text::texts(problems@) =~= head + seq![]);
        }
    }
}

// ── namespaces ───────────────────────────────────────────────────────

/// A server's name as a JavaScript global: the constant it is declared as.
pub fn namespace_key(server: &str) -> (key: String)
    ensures
        key@ == declarations::identifier_for(server@),
        schema_to_ts::is_identifier(key@),
{
    proof {
        declarations::identifier_for_is_identifier(server@);
    }
    sanitize(server)
}

/// Each of some property names, bound to one wire name.
pub open spec fn bound_to(keys: Seq<Seq<char>>, wire_name: Seq<char>) -> Seq<
    (Seq<char>, Seq<char>),
> {
    keys.map_values(|key: Seq<char>| (key, wire_name))
}

/// The bindings of the first `n` of some tools. Their names come from the same
/// assignment the declarations are rendered from.
pub open spec fn bindings_of(names: Seq<Seq<char>>, n: int) -> Seq<(Seq<char>, Seq<char>)>
    decreases n,
{
    if n <= 0 {
        seq![]
    } else {
        bindings_of(names, n - 1) + bound_to(
            declarations::keys_of(names[n - 1], declarations::assigned_all(names)[n - 1]),
            names[n - 1],
        )
    }
}

/// The namespace of a server that shows any tool.
pub open spec fn namespace_of(
    server: ServerView,
    read_only: bool,
    listing: Result<Seq<ToolInfoView>, Seq<char>>,
) -> Option<NamespaceView> {
    match listing {
        Ok(tools) => {
            let names = info_names(shown_of(server, read_only, tools));
            if names.len() > 0 {
                Some(
                    NamespaceView {
                        key: declarations::identifier_for(server.name),
                        server: server.name,
                        bindings: bindings_of(names, names.len() as int),
                    },
                )
            } else {
                None
            }
        },
        Err(_) => None,
    }
}

/// The namespaces of the first `n` servers, in order.
pub open spec fn namespaces_of(
    catalog: CatalogView,
    listings: Seq<Result<Seq<ToolInfoView>, Seq<char>>>,
    n: int,
) -> Seq<NamespaceView>
    decreases n,
{
    if n <= 0 {
        seq![]
    } else {
        let earlier = namespaces_of(catalog, listings, n - 1);
        match namespace_of(catalog.servers[n - 1], catalog.read_only, listings[n - 1]) {
            Some(namespace) => earlier.push(namespace),
            None => earlier,
        }
    }
}

/// The first `n` servers that did not answer, each with why.
pub open spec fn unanswered(
    catalog: CatalogView,
    listings: Seq<Result<Seq<ToolInfoView>, Seq<char>>>,
    n: int,
) -> Seq<Seq<char>>
    decreases n,
{
    if n <= 0 {
        seq![]
    } else {
        let earlier = unanswered(catalog, listings, n - 1);
        match listings[n - 1] {
            Err(problem) => earlier.push(problem_text(catalog.servers[n - 1].name, problem)),
            Ok(_) => earlier,
        }
    }
}

/// Copy the names of some tools.
fn names_of(tools: &Vec<&ToolInfo>) -> (names: Vec<String>)
    ensures
        text::texts(names@) == info_names(picked_views(tools@)),
{
    let ghost all = info_names(picked_views(tools@));
    let mut names: Vec<String> = Vec::new();
    let mut i: usize = 0;
    while i < tools.len()
        invariant
            i <= tools@.len(),
            all == info_names(picked_views(tools@)),
            text::texts(names@) == all.take(i as int),
        decreases tools@.len() - i,
    {
        let ghost earlier = text::texts(names@);
        names.push(tools[i].name.clone());
        assert(text::texts(names@) =~= earlier.push(all[i as int]));
        i += 1;
    }
    assert(all.take(i as int) =~= all);
    names
}

/// The bindings of some tools.
fn bind(names: &Vec<String>) -> (bindings: Vec<Binding>)
    ensures
        dispatch::binding_views(bindings@) == bindings_of(
            text::texts(names@),
            names@.len() as int,
        ),
{
    let ghost all = text::texts(names@);
    let table = binding_table(names);
    let mut bindings: Vec<Binding> = Vec::new();
    let mut i: usize = 0;
    assert(dispatch::binding_views(bindings@) =~= bindings_of(all, 0));
    while i < table.len()
        invariant
            i <= table@.len(),
            table@.len() == names@.len(),
            all == text::texts(names@),
            forall|k: int|
                0 <= k < names@.len() ==> declarations::binds(
                    #[trigger] table@[k],
                    names@[k]@,
                    declarations::assigned_all(all)[k],
                ),
            dispatch::binding_views(bindings@) == bindings_of(all, i as int),
        decreases table@.len() - i,
    {
        let ghost earlier = dispatch::binding_views(bindings@);
        let entry = &table[i];
        let ghost keys = text::texts(entry.keys@);
        let mut k: usize = 0;
        assert(dispatch::binding_views(bindings@) =~= earlier + bound_to(
            keys.take(0),
            entry.wire_name@,
        ));
        while k < entry.keys.len()
            invariant
                k <= entry.keys@.len(),
                keys == text::texts(entry.keys@),
                dispatch::binding_views(bindings@) == earlier + bound_to(
                    keys.take(k as int),
                    entry.wire_name@,
                ),
            decreases entry.keys@.len() - k,
        {
            let ghost was = dispatch::binding_views(bindings@);
            let binding = Binding {
                key: entry.keys[k].clone(),
                wire_name: entry.wire_name.clone(),
            };
            bindings.push(binding);
            assert(dispatch::binding_views(bindings@) =~= was.push(
                (keys[k as int], entry.wire_name@),
            ));
            assert(bound_to(keys.take(k + 1), entry.wire_name@) =~= bound_to(
                keys.take(k as int),
                entry.wire_name@,
            ).push((keys[k as int], entry.wire_name@)));
            assert(was.push((keys[k as int], entry.wire_name@)) =~= earlier + bound_to(
                keys.take(k + 1),
                entry.wire_name@,
            ));
            k += 1;
        }
        assert(keys.take(k as int) =~= keys);
        assert(all[i as int] == names@[i as int]@);
        i += 1;
    }
    bindings
}

// ── calls ────────────────────────────────────────────────────────────

/// The place of the first server that goes by `name`, or the number of
/// servers where none does.
pub open spec fn place_of(servers: Seq<ServerView>, name: Seq<char>) -> nat
    decreases servers.len(),
{
    if servers.len() == 0 || servers[0].name == name {
        0
    } else {
        1 + place_of(servers.drop_first(), name)
    }
}

/// A call that may be made.
#[derive(Debug, Clone, Copy, PartialEq, Eq)]
pub struct Route {
    /// The server that takes the call, by its place in the catalog.
    pub server: usize,
    /// How long it may take.
    pub timeout_secs: u64,
}

/// Which server takes a call and how long it may take, or why none does.
pub open spec fn route_of(catalog: CatalogView, server: Seq<char>, tool: Seq<char>) -> Result<
    (nat, u64),
    Seq<char>,
> {
    let place = place_of(catalog.servers, server);
    if place >= catalog.servers.len() {
        Err(unknown_server(server, catalog.names()))
    } else if !catalog.servers[place as int].lets_through(tool) {
        Err("`"@ + server + "."@ + tool + "` is not exposed by this workspace"@)
    } else {
        Ok((place, catalog.servers[place as int].tool_call_timeout_secs))
    }
}

/// The longest any of some servers may take over a call.
pub open spec fn longest(servers: Seq<ServerView>) -> u64
    decreases servers.len(),
{
    if servers.len() == 0 {
        0
    } else {
        let earlier = longest(servers.drop_last());
        if servers.last().tool_call_timeout_secs > earlier {
            servers.last().tool_call_timeout_secs
        } else {
            earlier
        }
    }
}

impl Catalog {
    /// The namespaces a script sees, one per server, given what each server
    /// answered when asked for its tools; and the servers that did not answer.
    pub fn namespaces(&self, listings: &Vec<Listing>) -> (seen: (Vec<Namespace>, Vec<String>))
        requires
            listings@.len() == self@.servers.len(),
        ensures
            dispatch::namespace_views(seen.0@) == namespaces_of(
                self@,
                listing_views(listings@),
                self@.servers.len() as int,
            ),
            text::texts(seen.1@) == unanswered(
                self@,
                listing_views(listings@),
                self@.servers.len() as int,
            ),
    {
        let ghost answers = listing_views(listings@);
        let mut namespaces: Vec<Namespace> = Vec::new();
        let mut problems: Vec<String> = Vec::new();
        let mut i: usize = 0;
        assert(dispatch::namespace_views(namespaces@) =~= namespaces_of(self@, answers, 0));
        assert(text::texts(problems@) =~= unanswered(self@, answers, 0));
        while i < self.servers.len()
            invariant
                i <= self.servers@.len(),
                listings@.len() == self.servers@.len(),
                answers == listing_views(listings@),
                dispatch::namespace_views(namespaces@) == namespaces_of(
                    self@,
                    answers,
                    i as int,
                ),
                text::texts(problems@) == unanswered(self@, answers, i as int),
            decreases self.servers@.len() - i,
        {
            let ghost earlier = dispatch::namespace_views(namespaces@);
            let ghost wrong = text::texts(problems@);
            let server = &self.servers[i];
            assert(self@.servers[i as int] == server@);
            assert(answers[i as int] == listing_view(listings@[i as int]));
            match &listings[i] {
                Ok(tools) => {
                    let visible = shown(server, self.read_only, tools);
                    let names = names_of(&visible);
                    assert(text::texts(names@).len() == names@.len());
                    if names.len() > 0 {
                        let namespace = Namespace {
                            key: namespace_key(server.name()),
                            server: server.name().to_string(),
                            bindings: bind(&names),
                        };
                        namespaces.push(namespace);
                        assert(dispatch::namespace_views(namespaces@) =~= earlier.push(
                            namespace@,
                        ));
                    }
                },
                Err(problem) => {
                    problems.push(problem_string(server.name(), problem.as_str()));
                    assert(text::texts(problems@) =~= wrong.push(
                        problem_text(server@.name, problem@),
                    ));
                },
            }
            i += 1;
        }
        (namespaces, problems)
    }

    /// Decide which server takes a call, honoring its filters.
    pub fn call(&self, server: &str, tool: &str) -> (route: Result<Route, String>)
        ensures
            match route_of(self@, server@, tool@) {
                Ok((place, secs)) => route == Ok::<Route, String>(
                    Route { server: place as usize, timeout_secs: secs },
                ) && place < self@.servers.len() && place <= usize::MAX,
                Err(problem) => route matches Err(message) && message@ == problem,
            },
    {
        let ghost all = self@.servers;
        let count: usize = self.servers.len();
        let mut place: usize = 0;
        assert(all.skip(0) =~= all);
        while place < count && !same_text(self.servers[place].name(), server)
            invariant
                place <= count,
                count == self.servers@.len(),
                all == self@.servers,
                place_of(all, server@) == place + place_of(all.skip(place as int), server@),
            decreases count - place,
        {
            assert(all.skip(place as int)[0] == self.servers@[place as int]@);
            assert(all.skip(place as int).drop_first() =~= all.skip(place + 1));
            place += 1;
        }
        if place < count {
            assert(all.skip(place as int)[0] == self.servers@[place as int]@);
        }
        assert(place_of(all, server@) == place);
        if place == count {
            return Err(unknown_string(server, &self.server_names()));
        }
        let entry = &self.servers[place];
        if !entry.exposes(tool) {
            let mut message = "`".to_string();
            message.append(server);
            message.append(".");
            message.append(tool);
            message.append("` is not exposed by this workspace");
            return Err(message);
        }
        Ok(Route { server: place, timeout_secs: entry.tool_call_timeout_secs })
    }

    /// How long a script may run against this catalog's servers.
    pub fn max_call_timeout(&self) -> (secs: u64)
        ensures
            secs == longest(self@.servers),
    {
        let ghost all = self@.servers;
        let mut secs: u64 = 0;
        let mut i: usize = 0;
        while i < self.servers.len()
            invariant
                i <= self.servers@.len(),
                all == self@.servers,
                secs == longest(all.take(i as int)),
            decreases self.servers@.len() - i,
        {
            assert(all.take(i + 1).drop_last() =~= all.take(i as int));
            assert(all.take(i + 1).last() == self.servers@[i as int]@);
            if self.servers[i].tool_call_timeout_secs > secs {
                secs = self.servers[i].tool_call_timeout_secs;
            }
            i += 1;
        }
        assert(all.take(i as int) =~= all);
        secs
    }
}

// ── laws ─────────────────────────────────────────────────────────────

/// A workspace shows exactly the tools its filters let through: everything
/// listed that passes, and nothing else. Where only reading is allowed, every
/// tool shown is declared to only read.
pub proof fn exactly_the_visible_tools_are_shown(
    server: ServerView,
    read_only: bool,
    tools: Seq<ToolInfoView>,
    tool: ToolInfoView,
)
    ensures
        shown_of(server, read_only, tools).contains(tool) <==> tools.contains(tool) && shows(
            server,
            read_only,
            tool,
        ),
    decreases tools.len(),
{
    if tools.len() > 0 {
        let shorter = tools.drop_last();
        let earlier = shown_of(server, read_only, shorter);
        let all = shown_of(server, read_only, tools);
        exactly_the_visible_tools_are_shown(server, read_only, shorter, tool);
        assert(tools =~= shorter.push(tools.last()));
        lemma_contains_push(shorter, tools.last(), tool);
        lemma_contains_push(earlier, tools.last(), tool);
    }
}

proof fn lemma_contains_push(tools: Seq<ToolInfoView>, last: ToolInfoView, tool: ToolInfoView)
    ensures
        tools.push(last).contains(tool) <==> tools.contains(tool) || tool == last,
{
    let all = tools.push(last);
    if tools.contains(tool) {
        let at = choose|at: int| 0 <= at < tools.len() && tools[at] == tool;
        assert(all[at] == tool);
    }
    if tool == last {
        assert(all[tools.len() as int] == tool);
    }
    if all.contains(tool) {
        let at = choose|at: int| 0 <= at < all.len() && all[at] == tool;
        if at < tools.len() {
            assert(tools[at] == tool);
        }
    }
}

/// A query that asks for a server as a whole is told of every tool a script can
/// call on it.
pub proof fn described_tools_are_the_bound_tools(
    server: ServerView,
    read_only: bool,
    query: QueryView,
    tools: Seq<ToolInfoView>,
)
    requires
        !query.narrows(),
    ensures
        wanted_of(query, keyed(shown_of(server, read_only, tools))) == keyed(
            shown_of(server, read_only, tools),
        ),
{
    lemma_wants_all(query, keyed(shown_of(server, read_only, tools)));
}

/// A query that does not narrow asks about everything.
proof fn lemma_wants_all(query: QueryView, tools: Seq<KeyedTool>)
    requires
        !query.narrows(),
    ensures
        wanted_of(query, tools) == tools,
    decreases tools.len(),
{
    if tools.len() > 0 {
        lemma_wants_all(query, tools.drop_last());
        assert(tools =~= tools.drop_last().push(tools.last()));
    }
}

/// What a query asks about is among what it is asked of.
proof fn lemma_wanted_among(query: QueryView, tools: Seq<KeyedTool>, i: int) -> (k: int)
    requires
        0 <= i < wanted_of(query, tools).len(),
    ensures
        0 <= k < tools.len(),
        tools[k] == wanted_of(query, tools)[i],
        query.wants_tool(tools[k].tool.name),
    decreases tools.len(),
{
    let earlier = wanted_of(query, tools.drop_last());
    if i < earlier.len() {
        lemma_wanted_among(query, tools.drop_last(), i)
    } else {
        tools.len() - 1
    }
}

/// Each key of each of the first `n` tools is bound to the tool.
proof fn lemma_keys_are_bound(names: Seq<Seq<char>>, n: int, k: int, a: int)
    requires
        0 <= k < n <= names.len(),
        0 <= a < declarations::keys_of(
            names[k],
            declarations::assigned_all(names)[k],
        ).len(),
    ensures
        bindings_of(names, n).contains(
            (
                declarations::keys_of(names[k], declarations::assigned_all(names)[k])[a],
                names[k],
            ),
        ),
    decreases n,
{
    let keys = declarations::keys_of(names[k], declarations::assigned_all(names)[k]);
    let all = bindings_of(names, n);
    let earlier = bindings_of(names, n - 1);
    if k == n - 1 {
        assert(all[earlier.len() + a] == (keys[a], names[k]));
    } else {
        lemma_keys_are_bound(names, n - 1, k, a);
        let at = choose|at: int| 0 <= at < earlier.len() && earlier[at] == (keys[a], names[k]);
        assert(all[at] == (keys[a], names[k]));
    }
}

/// Every name the model is shown dispatches to the tool it was shown for,
/// whatever the query: a tool described at any level but names is declared
/// under its keys and no others, and each of those keys is bound to it in the
/// namespace a script sees.
pub proof fn shown_names_dispatch(
    server: ServerView,
    read_only: bool,
    query: QueryView,
    tools: Seq<ToolInfoView>,
    params: Seq<char>,
    i: int,
)
    requires
        0 <= i < wanted_of(query, keyed(shown_of(server, read_only, tools))).len(),
    ensures
        ({
            let described = wanted_of(query, keyed(shown_of(server, read_only, tools)))[i];
            let declared = declared_as(described.tool);
            let keys = declarations::keys_of(declared.name, described.identifier);
            let namespace = namespace_of(server, read_only, Ok(tools));
            &&& query.wants_tool(described.tool.name)
            &&& 1 <= keys.len() <= 2
            &&& declarations::methods_text(declared, described.identifier, params)
                == declarations::key_lines(declared, keys[0], 0, params) + (if keys.len() == 2 {
                declarations::key_lines(declared, keys[1], 1, params)
            } else {
                seq![]
            })
            &&& namespace is Some
            &&& forall|a: int|
                0 <= a < keys.len() ==> namespace->Some_0.bindings.contains(
                    (#[trigger] keys[a], described.tool.name),
                )
        }),
{
    let bound = shown_of(server, read_only, tools);
    let names = info_names(bound);
    let described = wanted_of(query, keyed(bound))[i];
    let declared = declared_as(described.tool);
    let k = lemma_wanted_among(query, keyed(bound), i);
    assert(names[k] == described.tool.name);
    declarations::declared_keys_are_the_bound_keys(names, k, declared, params);
    let keys = declarations::keys_of(declared.name, described.identifier);
    assert forall|a: int| 0 <= a < keys.len() implies bindings_of(
        names,
        names.len() as int,
    ).contains((#[trigger] keys[a], described.tool.name)) by {
        lemma_keys_are_bound(names, names.len() as int, k, a);
    }
}

/// The global a script uses is the constant the model is shown, and a legal
/// identifier, whatever the server is called.
pub proof fn the_declared_global_is_installed(
    server: ServerView,
    read_only: bool,
    listing: Result<Seq<ToolInfoView>, Seq<char>>,
)
    ensures
        namespace_of(server, read_only, listing) matches Some(namespace) ==> namespace.key
            == declarations::identifier_for(server.name) && schema_to_ts::is_identifier(
            namespace.key,
        ),
{
    declarations::identifier_for_is_identifier(server.name);
}

/// The place of a server that goes by its name alone.
proof fn lemma_place_of(servers: Seq<ServerView>, i: int)
    requires
        0 <= i < servers.len(),
        forall|j: int| 0 <= j < i ==> (#[trigger] servers[j]).name != servers[i].name,
    ensures
        place_of(servers, servers[i].name) == i,
    decreases i,
{
    if i > 0 {
        let rest = servers.drop_first();
        assert(servers[0].name != servers[i].name);
        assert forall|j: int| 0 <= j < i - 1 implies (#[trigger] rest[j]).name != rest[i - 1].name by {
            assert(servers[j + 1].name != servers[i].name);
        }
        lemma_place_of(rest, i - 1);
    }
}

/// Each binding reaches one of the tools it was made from.
proof fn lemma_binding_reaches(names: Seq<Seq<char>>, n: int, at: int)
    requires
        n <= names.len(),
        0 <= at < bindings_of(names, n).len(),
    ensures
        names.contains(bindings_of(names, n)[at].1),
    decreases n,
{
    if n > 0 {
        let earlier = bindings_of(names, n - 1);
        if at < earlier.len() {
            lemma_binding_reaches(names, n - 1, at);
        } else {
            assert(bindings_of(names, n)[at].1 == names[n - 1]);
        }
    }
}

/// The server a namespace belongs to.
proof fn lemma_namespace_from(
    catalog: CatalogView,
    listings: Seq<Result<Seq<ToolInfoView>, Seq<char>>>,
    n: int,
    at: int,
) -> (i: int)
    requires
        0 <= at < namespaces_of(catalog, listings, n).len(),
    ensures
        0 <= i < n,
        namespace_of(catalog.servers[i], catalog.read_only, listings[i]) == Some(
            namespaces_of(catalog, listings, n)[at],
        ),
    decreases n,
{
    let earlier = namespaces_of(catalog, listings, n - 1);
    if n > 0 && at < earlier.len() {
        lemma_namespace_from(catalog, listings, n - 1, at)
    } else {
        n - 1
    }
}

/// Whatever a script finds bound, it can call: the call reaches the server the
/// namespace belongs to, and is not refused as hidden.
pub proof fn bound_tools_can_be_called(
    catalog: CatalogView,
    listings: Seq<Result<Seq<ToolInfoView>, Seq<char>>>,
    at: int,
    k: int,
)
    requires
        forall|i: int, j: int|
            0 <= i < j < catalog.servers.len() ==> (#[trigger] catalog.servers[i]).name != (
            #[trigger] catalog.servers[j]).name,
        0 <= at < namespaces_of(catalog, listings, catalog.servers.len() as int).len(),
        0 <= k < namespaces_of(catalog, listings, catalog.servers.len() as int)[at].bindings.len(),
    ensures
        ({
            let namespace = namespaces_of(catalog, listings, catalog.servers.len() as int)[at];
            let route = route_of(catalog, namespace.server, namespace.bindings[k].1);
            route is Ok && catalog.servers[route->Ok_0.0 as int].name == namespace.server
        }),
{
    let n = catalog.servers.len() as int;
    let namespace = namespaces_of(catalog, listings, n)[at];
    let i = lemma_namespace_from(catalog, listings, n, at);
    let server = catalog.servers[i];
    let tools = listings[i]->Ok_0;
    let visible = shown_of(server, catalog.read_only, tools);
    let names = info_names(visible);
    let wire_name = namespace.bindings[k].1;
    lemma_binding_reaches(names, names.len() as int, k);
    let from = choose|from: int| 0 <= from < names.len() && names[from] == wire_name;
    assert(visible.contains(visible[from]));
    exactly_the_visible_tools_are_shown(server, catalog.read_only, tools, visible[from]);
    lemma_place_of(catalog.servers, i);
}

/// A tool the filters hide cannot be called, whatever a script was told of it.
pub proof fn hidden_tools_cannot_be_called(
    catalog: CatalogView,
    server: Seq<char>,
    tool: Seq<char>,
)
    requires
        forall|i: int|
            0 <= i < catalog.servers.len() && (#[trigger] catalog.servers[i]).name == server
                ==> !catalog.servers[i].lets_through(tool),
    ensures
        route_of(catalog, server, tool) is Err,
{
    lemma_place_bounds(catalog.servers, server);
}

proof fn lemma_place_bounds(servers: Seq<ServerView>, name: Seq<char>)
    ensures
        place_of(servers, name) <= servers.len(),
        place_of(servers, name) < servers.len() ==> servers[place_of(servers, name) as int].name
            == name,
    decreases servers.len(),
{
    if servers.len() > 0 && servers[0].name != name {
        lemma_place_bounds(servers.drop_first(), name);
    }
}

/// Each problem stands in the lines made of them.
proof fn lemma_problem_in_lines(problems: Seq<Seq<char>>, i: int)
    requires
        0 <= i < problems.len(),
    ensures
        text::has_piece(problem_lines(problems), problems[i]),
    decreases problems.len(),
{
    let earlier = problem_lines(problems.drop_last());
    if i == problems.len() - 1 {
        text::lemma_piece_of_itself(problems[i]);
        text::lemma_piece_within(
            problem_lines(problems),
            earlier + "  "@,
            problems[i],
            "\n"@,
            problems[i],
        );
    } else {
        lemma_problem_in_lines(problems.drop_last(), i);
        assert(problem_lines(problems) =~= seq![] + earlier + ("  "@ + problems.last() + "\n"@));
        text::lemma_piece_within(
            problem_lines(problems),
            seq![],
            earlier,
            "  "@ + problems.last() + "\n"@,
            problems[i],
        );
    }
}

/// Nothing is left out: every section a query gives rise to, and every problem,
/// stands in the answer. So a server that is refused, does not answer or does
/// not exist is never silently missing.
pub proof fn everything_found_is_reported(
    catalog: CatalogView,
    query: QueryView,
    listings: Seq<Result<Seq<ToolInfoView>, Seq<char>>>,
)
    requires
        catalog.servers.len() > 0 || catalog.rejected.len() > 0,
    ensures
        forall|i: int|
            0 <= i < all_problems(catalog, query, listings).len() ==> text::has_piece(
                description_of(catalog, query, listings),
                #[trigger] all_problems(catalog, query, listings)[i],
            ),
        forall|i: int|
            0 <= i < sections_of(catalog, query, listings, catalog.servers.len() as int).len()
                ==> text::has_piece(
                description_of(catalog, query, listings),
                #[trigger] sections_of(
                    catalog,
                    query,
                    listings,
                    catalog.servers.len() as int,
                )[i],
            ),
{
    let sections = sections_of(catalog, query, listings, catalog.servers.len() as int);
    let problems = all_problems(catalog, query, listings);
    let whole = description_of(catalog, query, listings);
    let described = text::join(sections, "\n"@);
    let lines = problem_lines(problems);
    let gap = if described.len() > 0 {
        "\n"@
    } else {
        ""@
    };
    let head = described + gap + "Problems:\n"@;
    assert forall|i: int| 0 <= i < problems.len() implies text::has_piece(
        whole,
        #[trigger] problems[i],
    ) by {
        lemma_problem_in_lines(problems, i);
        assert(whole =~= head + lines + seq![]);
        text::lemma_piece_within(whole, head, lines, seq![], problems[i]);
    }
    assert forall|i: int| 0 <= i < sections.len() implies text::has_piece(
        whole,
        #[trigger] sections[i],
    ) by {
        text::lemma_part_in_join(sections, "\n"@, i);
        if problems.len() > 0 {
            let tail = gap + "Problems:\n"@ + lines;
            assert(whole =~= seq![] + described + tail);
            text::lemma_piece_within(whole, seq![], described, tail, sections[i]);
        }
    }
}

/// Servers that could not be used lead the problems reported, whatever is
/// asked.
pub proof fn refusals_are_always_reported(
    catalog: CatalogView,
    query: QueryView,
    listings: Seq<Result<Seq<ToolInfoView>, Seq<char>>>,
    i: int,
)
    requires
        0 <= i < catalog.rejected.len(),
    ensures
        text::has_piece(
            description_of(catalog, query, listings),
            problem_text(catalog.rejected[i].0, catalog.rejected[i].1),
        ),
{
    everything_found_is_reported(catalog, query, listings);
    assert(all_problems(catalog, query, listings)[i] == refusals(catalog.rejected)[i]);
}

/// No server may take longer over a call than the catalog says scripts should
/// expect.
pub proof fn no_call_outlasts_the_longest(servers: Seq<ServerView>)
    ensures
        forall|i: int|
            0 <= i < servers.len() ==> (#[trigger] servers[i]).tool_call_timeout_secs <= longest(
                servers,
            ),
        servers.len() > 0 ==> exists|i: int|
            0 <= i < servers.len() && (#[trigger] servers[i]).tool_call_timeout_secs == longest(
                servers,
            ),
    decreases servers.len(),
{
    if servers.len() > 0 {
        let shorter = servers.drop_last();
        no_call_outlasts_the_longest(shorter);
        assert forall|i: int| 0 <= i < servers.len() implies (
        #[trigger] servers[i]).tool_call_timeout_secs <= longest(servers) by {
            if i < shorter.len() {
                assert(shorter[i] == servers[i]);
            }
        }
        if servers.last().tool_call_timeout_secs > longest(shorter) || shorter.len() == 0 {
            assert(servers[servers.len() - 1].tool_call_timeout_secs == longest(servers));
        } else {
            let i = choose|i: int|
                0 <= i < shorter.len() && (#[trigger] shorter[i]).tool_call_timeout_secs
                    == longest(shorter);
            assert(servers[i].tool_call_timeout_secs == longest(servers));
        }
    }
}

/// Whether a plugin's filters let a tool through and, where only reading is
/// allowed, its server says that it only reads. A list of enabled tools is the
/// only one that counts where there is one.
pub open spec fn passes(server: ServerView, read_only: bool, tool: ToolInfoView) -> bool {
    &&& server.enabled_tools is Some ==> server.enabled_tools->Some_0.contains(tool.name)
    &&& server.enabled_tools is None && server.disabled_tools is Some
        ==> !server.disabled_tools->Some_0.contains(tool.name)
    &&& read_only ==> tool.read_only_hint == Some(true)
}

/// Whether a query asks about a tool of this name.
pub open spec fn asked_about(query: QueryView, name: Seq<char>) -> bool {
    &&& query.tools is Some ==> query.tools->Some_0.contains(name)
    &&& query.pattern is Some ==> glob::globs(query.pattern->Some_0, name)
}

/// Whether a query asks about a server of this name.
pub open spec fn server_asked_about(query: QueryView, name: Seq<char>) -> bool {
    query.servers is Some ==> query.servers->Some_0.contains(name)
}

/// The tools shown of a server are those of its list that pass, each as often
/// and in the order listed.
pub proof fn tools_are_shown_as_listed(
    server: ServerView,
    read_only: bool,
    tools: Seq<ToolInfoView>,
)
    ensures
        shown_of(server, read_only, tools) == tools.filter(
            |tool: ToolInfoView| passes(server, read_only, tool),
        ),
    decreases tools.len(),
{
    reveal(Seq::filter);
    if tools.len() > 0 {
        tools_are_shown_as_listed(server, read_only, tools.drop_last());
    }
}

/// The tools a query is told of are those it asks about, in the order shown,
/// each with the identifier it has among all of the tools shown.
pub proof fn tools_are_described_as_shown(query: QueryView, shown: Seq<ToolInfoView>)
    ensures
        wanted_of(query, keyed(shown)) == keyed(shown).filter(
            |entry: KeyedTool| asked_about(query, entry.tool.name),
        ),
        tools_in(wanted_of(query, keyed(shown))) == shown.filter(
            |tool: ToolInfoView| asked_about(query, tool.name),
        ),
        keyed(shown).len() == shown.len(),
        forall|i: int|
            0 <= i < shown.len() ==> #[trigger] keyed(shown)[i] == (KeyedTool {
                tool: shown[i],
                identifier: declarations::assigned_all(
                    shown.map_values(|tool: ToolInfoView| tool.name),
                )[i],
            }),
{
    lemma_wanted_is_filtered(query, keyed(shown));
    lemma_wanted_tools(query, keyed(shown));
    assert(tools_in(keyed(shown)) =~= shown);
}

proof fn lemma_wanted_is_filtered(query: QueryView, tools: Seq<KeyedTool>)
    ensures
        wanted_of(query, tools) == tools.filter(
            |entry: KeyedTool| asked_about(query, entry.tool.name),
        ),
    decreases tools.len(),
{
    reveal(Seq::filter);
    if tools.len() > 0 {
        lemma_wanted_is_filtered(query, tools.drop_last());
    }
}

proof fn lemma_wanted_tools(query: QueryView, tools: Seq<KeyedTool>)
    ensures
        tools_in(wanted_of(query, tools)) == tools_in(tools).filter(
            |tool: ToolInfoView| asked_about(query, tool.name),
        ),
    decreases tools.len(),
{
    reveal(Seq::filter);
    if tools.len() > 0 {
        let rest = tools.drop_last();
        lemma_wanted_tools(query, rest);
        assert(tools_in(tools).drop_last() =~= tools_in(rest));
        assert(tools_in(tools).last() == tools.last().tool);
        assert(tools_in(wanted_of(query, rest).push(tools.last())) =~= tools_in(
            wanted_of(query, rest),
        ).push(tools.last().tool));
    } else {
        assert(tools_in(wanted_of(query, tools)) =~= seq![]);
        assert(tools_in(tools) =~= seq![]);
    }
}

/// A tool that is listed, passes and is asked about is among those described.
proof fn lemma_described(
    server: ServerView,
    read_only: bool,
    query: QueryView,
    tools: Seq<ToolInfoView>,
    j: int,
) -> (at: int)
    requires
        0 <= j < tools.len(),
        passes(server, read_only, tools[j]),
        asked_about(query, tools[j].name),
    ensures
        0 <= at < wanted_of(query, keyed(shown_of(server, read_only, tools))).len(),
        wanted_of(query, keyed(shown_of(server, read_only, tools)))[at].tool == tools[j],
{
    let shown = shown_of(server, read_only, tools);
    let described = wanted_of(query, keyed(shown));
    tools_are_shown_as_listed(server, read_only, tools);
    tools_are_described_as_shown(query, shown);
    tools.lemma_filter_contains(|tool: ToolInfoView| passes(server, read_only, tool), j);
    let k = choose|k: int| 0 <= k < shown.len() && shown[k] == tools[j];
    shown.lemma_filter_contains(|tool: ToolInfoView| asked_about(query, tool.name), k);
    let at = choose|at: int|
        0 <= at < tools_in(described).len() && tools_in(described)[at] == tools[j];
    at
}

/// What is said of each server in turn, where there is anything to say, is what
/// is gathered: nothing is left out, added or moved.
pub proof fn servers_are_gone_through_in_order(
    catalog: CatalogView,
    query: QueryView,
    listings: Seq<Result<Seq<ToolInfoView>, Seq<char>>>,
    n: int,
)
    requires
        0 <= n <= catalog.servers.len(),
    ensures
        sections_of(catalog, query, listings, n) == Seq::new(n as nat, |i: int| i).filter_map(
            |i: int| section_of(catalog.servers[i], catalog.read_only, query, listings[i]),
        ),
        problems_of(catalog, query, listings, n) == Seq::new(n as nat, |i: int| i).filter_map(
            |i: int| problem_of(catalog.servers[i], catalog.read_only, query, listings[i]),
        ),
        namespaces_of(catalog, listings, n) == Seq::new(n as nat, |i: int| i).filter_map(
            |i: int| namespace_of(catalog.servers[i], catalog.read_only, listings[i]),
        ),
        unanswered(catalog, listings, n) == Seq::new(n as nat, |i: int| i).filter_map(
            |i: int|
                match listings[i] {
                    Err(problem) => Some(catalog.servers[i].name + ": "@ + problem),
                    Ok(_) => None,
                },
        ),
    decreases n,
{
    let all = Seq::new(n as nat, |i: int| i);
    if n > 0 {
        let fewer = Seq::new((n - 1) as nat, |i: int| i);
        servers_are_gone_through_in_order(catalog, query, listings, n - 1);
        assert(all.drop_last() =~= fewer);
        assert(all.last() == n - 1);
    }
}

/// Where something comes out of the `i`-th of some steps, it is among what
/// comes out of all of them.
proof fn lemma_gathered<B>(n: int, f: spec_fn(int) -> Option<B>, i: int) -> (at: int)
    requires
        0 <= i < n,
        f(i) is Some,
    ensures
        0 <= at < Seq::new(n as nat, |i: int| i).filter_map(f).len(),
        Seq::new(n as nat, |i: int| i).filter_map(f)[at] == f(i)->Some_0,
    decreases n,
{
    let all = Seq::new(n as nat, |i: int| i);
    let fewer = Seq::new((n - 1) as nat, |i: int| i);
    assert(all.drop_last() =~= fewer);
    assert(all.last() == n - 1);
    if i == n - 1 {
        fewer.filter_map(f).len() as int
    } else {
        lemma_gathered(n - 1, f, i)
    }
}

/// Every server that answered and shows a tool the query asks about has its
/// section in the description.
pub proof fn every_answering_server_is_described(
    catalog: CatalogView,
    query: QueryView,
    listings: Seq<Result<Seq<ToolInfoView>, Seq<char>>>,
    i: int,
    j: int,
)
    requires
        0 <= i < catalog.servers.len(),
        server_asked_about(query, catalog.servers[i].name),
        listings[i] is Ok,
        0 <= j < listings[i]->Ok_0.len(),
        passes(catalog.servers[i], catalog.read_only, listings[i]->Ok_0[j]),
        asked_about(query, listings[i]->Ok_0[j].name),
    ensures
        ({
            let said = section_of(catalog.servers[i], catalog.read_only, query, listings[i]);
            said is Some && text::has_piece(
                description_of(catalog, query, listings),
                said->Some_0,
            )
        }),
{
    let n = catalog.servers.len() as int;
    let at = lemma_described(catalog.servers[i], catalog.read_only, query, listings[i]->Ok_0, j);
    let f = |i: int| section_of(catalog.servers[i], catalog.read_only, query, listings[i]);
    servers_are_gone_through_in_order(catalog, query, listings, n);
    let k = lemma_gathered(n, f, i);
    everything_found_is_reported(catalog, query, listings);
    assert(sections_of(catalog, query, listings, n)[k] == f(i)->Some_0);
}

/// What an index says of a tool.
pub open spec fn index_entry(tool: ToolInfoView) -> Seq<char> {
    "  "@ + tool.name + (if tool.description is Some && text::trim(
        tool.description->Some_0,
    ).len() > 0 {
        " - "@ + text::first_line_of(text::trim(tool.description->Some_0))
    } else {
        seq![]
    }) + "\n"@
}

/// A section names its server. An index has a line for each tool described, a
/// declaration declares each of them and nothing else; only a server that
/// answered, is asked about and has a tool to describe has a section.
pub proof fn a_section_tells_of_each_tool(
    server: ServerView,
    read_only: bool,
    query: QueryView,
    listing: Result<Seq<ToolInfoView>, Seq<char>>,
)
    ensures
        ({
            let said = section_of(server, read_only, query, listing);
            match listing {
                Ok(tools) => {
                    let described = wanted_of(query, keyed(shown_of(server, read_only, tools)));
                    let detail = if query.detail == Detail::Names && (query.servers is Some
                        || query.tools is Some) {
                        Detail::Full
                    } else {
                        query.detail
                    };
                    &&& said is Some <==> server_asked_about(query, server.name)
                        && described.len() > 0
                    &&& said is Some && detail == Detail::Names ==> said->Some_0 == server.name
                        + ":\n"@ + text::concat(
                        described.map_values(|entry: KeyedTool| index_entry(entry.tool)),
                    )
                    &&& said is Some && detail != Detail::Names ==> said->Some_0
                        == declarations::text_under(
                        server.name,
                        described.map_values(
                            |entry: KeyedTool|
                                ToolView {
                                    name: entry.tool.name,
                                    description: entry.tool.description,
                                    schema: Some(entry.tool.input_schema),
                                },
                        ),
                        described.map_values(|entry: KeyedTool| entry.identifier),
                        detail == Detail::Full,
                    )
                },
                Err(_) => said is None,
            }
        }),
{
    if let Ok(tools) = listing {
        let described = wanted_of(query, keyed(shown_of(server, read_only, tools)));
        lemma_index_entries(described);
        assert(all_declared_as(tools_in(described)) =~= described.map_values(
            |entry: KeyedTool|
                ToolView {
                    name: entry.tool.name,
                    description: entry.tool.description,
                    schema: Some(entry.tool.input_schema),
                },
        ));
    }
}

proof fn lemma_index_entries(tools: Seq<KeyedTool>)
    ensures
        index_lines(tools_in(tools)) == text::concat(
            tools.map_values(|entry: KeyedTool| index_entry(entry.tool)),
        ),
    decreases tools.len(),
{
    let entries = tools.map_values(|entry: KeyedTool| index_entry(entry.tool));
    if tools.len() > 0 {
        let rest = tools.drop_last();
        lemma_index_entries(rest);
        assert(entries.drop_last() =~= rest.map_values(
            |entry: KeyedTool| index_entry(entry.tool),
        ));
        assert(tools_in(tools).drop_last() =~= tools_in(rest));
        assert(index_line(tools.last().tool) =~= index_entry(tools.last().tool));
        assert(entries.last() == index_entry(tools.last().tool));
    } else {
        assert(index_lines(tools_in(tools)) =~= text::concat(entries));
    }
}

/// A server that is asked about and does not answer, or hides all it lists from
/// a query that asks for no tools in particular, is reported with the reason;
/// no other is.
pub proof fn servers_with_nothing_to_show_say_why(
    catalog: CatalogView,
    query: QueryView,
    listings: Seq<Result<Seq<ToolInfoView>, Seq<char>>>,
    i: int,
)
    requires
        0 <= i < catalog.servers.len(),
    ensures
        ({
            let server = catalog.servers[i];
            let said = problem_of(server, catalog.read_only, query, listings[i]);
            let description = description_of(catalog, query, listings);
            &&& said is Some ==> text::has_piece(description, said->Some_0)
            &&& match listings[i] {
                Err(problem) => if server_asked_about(query, server.name) {
                    said == Some(server.name + ": "@ + problem)
                } else {
                    said is None
                },
                Ok(tools) => {
                    let hidden = forall|j: int|
                        0 <= j < tools.len() ==> !passes(
                            server,
                            catalog.read_only,
                            #[trigger] tools[j],
                        );
                    if server_asked_about(query, server.name) && query.tools is None
                        && query.pattern is None && tools.len() > 0 && hidden {
                        said == Some(
                            server.name + ": "@ + ("no tools visible ("@ + text::decimal(
                                tools.len(),
                            ) + " hidden by filters)"@),
                        )
                    } else {
                        said is None
                    }
                },
            }
        }),
{
    let n = catalog.servers.len() as int;
    let server = catalog.servers[i];
    let f = |i: int| problem_of(catalog.servers[i], catalog.read_only, query, listings[i]);
    servers_are_gone_through_in_order(catalog, query, listings, n);
    if f(i) is Some {
        let k = lemma_gathered(n, f, i);
        everything_found_is_reported(catalog, query, listings);
        let at = refusals(catalog.rejected).len() + k;
        assert(all_problems(catalog, query, listings)[at] == f(i)->Some_0);
    }
    if let Ok(tools) = listings[i] {
        let shown = shown_of(server, catalog.read_only, tools);
        let described = wanted_of(query, keyed(shown));
        tools_are_shown_as_listed(server, catalog.read_only, tools);
        let ok = |tool: ToolInfoView| passes(server, catalog.read_only, tool);
        if !query.narrows() {
            described_tools_are_the_bound_tools(server, catalog.read_only, query, tools);
            if shown.len() > 0 {
                tools.lemma_filter_pred(ok, 0);
                assert(shown.contains(shown[0]));
                exactly_the_visible_tools_are_shown(server, catalog.read_only, tools, shown[0]);
                let j = choose|j: int| 0 <= j < tools.len() && tools[j] == shown[0];
                assert(passes(server, catalog.read_only, tools[j]));
            } else {
                assert forall|j: int| 0 <= j < tools.len() implies !passes(
                    server,
                    catalog.read_only,
                    #[trigger] tools[j],
                ) by {
                    if passes(server, catalog.read_only, tools[j]) {
                        tools.lemma_filter_contains(ok, j);
                    }
                }
            }
        }
    }
}

/// Every name a query asks for that no server goes by is reported, with the
/// names there are.
pub proof fn unknown_servers_are_reported(
    catalog: CatalogView,
    query: QueryView,
    listings: Seq<Result<Seq<ToolInfoView>, Seq<char>>>,
    at: int,
)
    requires
        query.servers is Some,
        0 <= at < query.servers->Some_0.len(),
        forall|i: int|
            0 <= i < catalog.servers.len() ==> (#[trigger] catalog.servers[i]).name
                != query.servers->Some_0[at],
        catalog.servers.len() > 0 || catalog.rejected.len() > 0,
    ensures
        text::has_piece(
            description_of(catalog, query, listings),
            "no server named `"@ + query.servers->Some_0[at] + "`. Available: "@ + text::join(
                catalog.servers.map_values(|server: ServerView| server.name),
                ", "@,
            ),
        ),
{
    let requested = query.servers->Some_0;
    let names = catalog.names();
    if names.contains(requested[at]) {
        let i = choose|i: int| 0 <= i < names.len() && names[i] == requested[at];
        assert(catalog.servers[i].name == requested[at]);
    }
    let k = lemma_unknown_among(requested, names, at);
    everything_found_is_reported(catalog, query, listings);
    let n = catalog.servers.len() as int;
    let before = refusals(catalog.rejected) + problems_of(catalog, query, listings, n);
    assert(all_problems(catalog, query, listings)[before.len() + k] == unknown_of(
        requested,
        names,
    )[k]);
}

proof fn lemma_unknown_among(
    requested: Seq<Seq<char>>,
    names: Seq<Seq<char>>,
    at: int,
) -> (k: int)
    requires
        0 <= at < requested.len(),
        !names.contains(requested[at]),
    ensures
        0 <= k < unknown_of(requested, names).len(),
        unknown_of(requested, names)[k] == unknown_server(requested[at], names),
    decreases requested.len(),
{
    let rest = requested.drop_last();
    if at == requested.len() - 1 {
        unknown_of(rest, names).len() as int
    } else {
        lemma_unknown_among(rest, names, at)
    }
}

/// What a query asks for that no server goes by, and nothing else, is reported
/// as unknown.
pub proof fn only_unknown_names_are_reported_as_such(
    requested: Seq<Seq<char>>,
    names: Seq<Seq<char>>,
)
    ensures
        unknown_of(requested, names) == requested.filter(
            |name: Seq<char>| !names.contains(name),
        ).map_values(
            |name: Seq<char>|
                "no server named `"@ + name + "`. Available: "@ + text::join(names, ", "@),
        ),
    decreases requested.len(),
{
    reveal(Seq::filter);
    let missing = |name: Seq<char>| !names.contains(name);
    let said = |name: Seq<char>|
        "no server named `"@ + name + "`. Available: "@ + text::join(names, ", "@);
    if requested.len() > 0 {
        let rest = requested.drop_last();
        only_unknown_names_are_reported_as_such(rest, names);
        assert(rest.filter(missing).push(requested.last()).map_values(said) =~= rest.filter(
            missing,
        ).map_values(said).push(said(requested.last())));
    } else {
        assert(unknown_of(requested, names) =~= requested.filter(missing).map_values(said));
    }
}

/// A description is the sections with an empty line between each two, and the
/// problems behind them, each on an indented line; with neither it says so.
pub proof fn a_description_is_laid_out(
    catalog: CatalogView,
    query: QueryView,
    listings: Seq<Result<Seq<ToolInfoView>, Seq<char>>>,
)
    ensures
        ({
            let n = catalog.servers.len() as int;
            let sections = sections_of(catalog, query, listings, n);
            let refused = catalog.rejected.map_values(
                |rejection: (Seq<char>, Seq<char>)| rejection.0 + ": "@ + rejection.1,
            );
            let unknown = match query.servers {
                Some(requested) => unknown_of(
                    requested,
                    catalog.servers.map_values(|server: ServerView| server.name),
                ),
                None => seq![],
            };
            let problems = refused + problems_of(catalog, query, listings, n) + unknown;
            let described = text::join(sections, seq!['\n']);
            let lines = text::concat(
                problems.map_values(|problem: Seq<char>| "  "@ + problem + seq!['\n']),
            );
            let said = description_of(catalog, query, listings);
            if catalog.servers.len() == 0 && catalog.rejected.len() == 0 {
                said == "No MCP servers apply to this workspace."@
            } else if sections.len() == 0 && problems.len() == 0 {
                said == "No tools matched."@
            } else if problems.len() == 0 {
                said == described
            } else if described.len() == 0 {
                said == "Problems:\n"@ + lines
            } else {
                said == described + seq!['\n'] + "Problems:\n"@ + lines
            }
        }),
{
    reveal_strlit("\n");
    reveal_strlit("");
    assert("\n"@ =~= seq!['\n']);
    assert(""@ =~= seq![]);
    let n = catalog.servers.len() as int;
    let sections = sections_of(catalog, query, listings, n);
    let refused = catalog.rejected.map_values(
        |rejection: (Seq<char>, Seq<char>)| rejection.0 + ": "@ + rejection.1,
    );
    let unknown = match query.servers {
        Some(requested) => unknown_of(
            requested,
            catalog.servers.map_values(|server: ServerView| server.name),
        ),
        None => seq![],
    };
    let problems = refused + problems_of(catalog, query, listings, n) + unknown;
    assert(refused =~= refusals(catalog.rejected));
    assert(problems =~= all_problems(catalog, query, listings));
    lemma_lines_concatenated(problems);
    let described = text::join(sections, seq!['\n']);
    let lines = problem_lines(problems);
    if described.len() == 0 {
        assert(described + ""@ + "Problems:\n"@ + lines =~= "Problems:\n"@ + lines);
    }
}

proof fn lemma_lines_concatenated(problems: Seq<Seq<char>>)
    ensures
        problem_lines(problems) == text::concat(
            problems.map_values(|problem: Seq<char>| "  "@ + problem + seq!['\n']),
        ),
    decreases problems.len(),
{
    reveal_strlit("\n");
    assert("\n"@ =~= seq!['\n']);
    let line = |problem: Seq<char>| "  "@ + problem + seq!['\n'];
    let all = problems.map_values(line);
    if problems.len() > 0 {
        lemma_lines_concatenated(problems.drop_last());
        assert(all.drop_last() =~= problems.drop_last().map_values(line));
        assert(all.last() == line(problems.last()));
        assert(problem_lines(problems) =~= text::concat(all));
    } else {
        assert(problem_lines(problems) =~= text::concat(all));
    }
}

/// Every server that answered and shows a tool has its namespace among those a
/// script sees; a server has none only if it did not answer or shows nothing.
/// One that did not answer is reported with the reason.
pub proof fn every_server_with_tools_has_a_namespace(
    catalog: CatalogView,
    listings: Seq<Result<Seq<ToolInfoView>, Seq<char>>>,
    i: int,
)
    requires
        0 <= i < catalog.servers.len(),
    ensures
        ({
            let server = catalog.servers[i];
            let n = catalog.servers.len() as int;
            let own = namespace_of(server, catalog.read_only, listings[i]);
            match listings[i] {
                Ok(tools) => {
                    let visible = exists|j: int|
                        0 <= j < tools.len() && passes(
                            server,
                            catalog.read_only,
                            #[trigger] tools[j],
                        );
                    &&& own is Some <==> visible
                    &&& visible ==> namespaces_of(catalog, listings, n).contains(own->Some_0)
                    &&& visible ==> own->Some_0.server == server.name
                    &&& visible ==> own->Some_0.key == declarations::identifier_for(server.name)
                },
                Err(problem) => own is None && unanswered(catalog, listings, n).contains(
                    server.name + ": "@ + problem,
                ),
            }
        }),
{
    let server = catalog.servers[i];
    let n = catalog.servers.len() as int;
    let query = QueryView { servers: None, tools: None, pattern: None, detail: Detail::Names };
    servers_are_gone_through_in_order(catalog, query, listings, n);
    match listings[i] {
        Ok(tools) => {
            let f = |i: int| namespace_of(catalog.servers[i], catalog.read_only, listings[i]);
            let shown = shown_of(server, catalog.read_only, tools);
            let ok = |tool: ToolInfoView| passes(server, catalog.read_only, tool);
            tools_are_shown_as_listed(server, catalog.read_only, tools);
            if shown.len() > 0 {
                let k = lemma_gathered(n, f, i);
                assert(namespaces_of(catalog, listings, n)[k] == f(i)->Some_0);
                tools.lemma_filter_pred(ok, 0);
                assert(shown.contains(shown[0]));
                exactly_the_visible_tools_are_shown(server, catalog.read_only, tools, shown[0]);
                let j = choose|j: int| 0 <= j < tools.len() && tools[j] == shown[0];
                assert(passes(server, catalog.read_only, tools[j]));
            } else if exists|j: int|
                0 <= j < tools.len() && passes(server, catalog.read_only, #[trigger] tools[j]) {
                let j = choose|j: int|
                    0 <= j < tools.len() && passes(server, catalog.read_only, #[trigger] tools[j]);
                tools.lemma_filter_contains(ok, j);
            }
        },
        Err(problem) => {
            let f = |i: int|
                match listings[i] {
                    Err(problem) => Some(catalog.servers[i].name + ": "@ + problem),
                    Ok(_) => None,
                };
            let k = lemma_gathered(n, f, i);
            assert(unanswered(catalog, listings, n)[k] == f(i)->Some_0);
        },
    }
}

/// A namespace binds each tool shown under its keys, in order: under the
/// identifier assigned to it, behind its own name where that is another.
pub proof fn a_namespace_binds_each_tool(names: Seq<Seq<char>>, n: int)
    requires
        0 <= n < names.len(),
    ensures
        bindings_of(names, 0).len() == 0,
        bindings_of(names, n + 1) == bindings_of(names, n) + (if schema_to_ts::is_identifier(
            names[n],
        ) {
            seq![(declarations::assigned_all(names)[n], names[n])]
        } else {
            seq![(names[n], names[n]), (declarations::assigned_all(names)[n], names[n])]
        }),
{
    let identifier = declarations::assigned_all(names)[n];
    if schema_to_ts::is_identifier(names[n]) {
        assert(bound_to(seq![identifier], names[n]) =~= seq![(identifier, names[n])]);
    } else {
        assert(bound_to(seq![names[n], identifier], names[n]) =~= seq![
            (names[n], names[n]),
            (identifier, names[n]),
        ]);
    }
}

/// The namespace of a server binds all of the tools it shows.
pub proof fn a_namespace_is_made_of_the_tools_shown(
    server: ServerView,
    read_only: bool,
    tools: Seq<ToolInfoView>,
)
    ensures
        ({
            let shown = tools.filter(|tool: ToolInfoView| passes(server, read_only, tool));
            let names = shown.map_values(|tool: ToolInfoView| tool.name);
            namespace_of(server, read_only, Ok(tools)) == (if shown.len() == 0 {
                None
            } else {
                Some(
                    NamespaceView {
                        key: declarations::identifier_for(server.name),
                        server: server.name,
                        bindings: bindings_of(names, names.len() as int),
                    },
                )
            })
        }),
{
    tools_are_shown_as_listed(server, read_only, tools);
}

/// A call goes to the first server of the name, which must let the tool
/// through, and may take as long as that server's calls may; otherwise it is
/// refused with what is missing.
pub proof fn calls_go_to_the_server_they_name(
    catalog: CatalogView,
    server: Seq<char>,
    tool: Seq<char>,
    i: int,
)
    ensures
        0 <= i < catalog.servers.len() && catalog.servers[i].name == server && (forall|j: int|
            0 <= j < i ==> (#[trigger] catalog.servers[j]).name != server) ==> route_of(
            catalog,
            server,
            tool,
        ) == (if (catalog.servers[i].enabled_tools is Some
            ==> catalog.servers[i].enabled_tools->Some_0.contains(tool)) && (
        catalog.servers[i].enabled_tools is None && catalog.servers[i].disabled_tools is Some
            ==> !catalog.servers[i].disabled_tools->Some_0.contains(tool)) {
            Ok((i as nat, catalog.servers[i].tool_call_timeout_secs))
        } else {
            Err("`"@ + server + "."@ + tool + "` is not exposed by this workspace"@)
        }),
        (forall|j: int|
            0 <= j < catalog.servers.len() ==> (#[trigger] catalog.servers[j]).name != server)
            ==> route_of(catalog, server, tool) == Err::<(nat, u64), Seq<char>>(
            "no server named `"@ + server + "`. Available: "@ + text::join(
                catalog.servers.map_values(|server: ServerView| server.name),
                ", "@,
            ),
        ),
{
    lemma_place_bounds(catalog.servers, server);
    if 0 <= i < catalog.servers.len() && catalog.servers[i].name == server && (forall|j: int|
        0 <= j < i ==> (#[trigger] catalog.servers[j]).name != server) {
        lemma_place_of(catalog.servers, i);
    }
}

/// A query is read from the arguments of its names: lists of strings, a text
/// and a word; anything of another shape is passed over. Naming servers or
/// tools asks for details unless some are asked for already.
pub proof fn a_query_is_what_its_arguments_say(args: JsonTree)
    ensures
        ({
            let query = query_in(args);
            &&& query.servers == (match args.get("servers"@) {
                Some(JsonTree::Array(items)) => Some(schema_to_ts::strings_in(items)),
                _ => None,
            })
            &&& query.tools == (match args.get("tools"@) {
                Some(JsonTree::Array(items)) => Some(schema_to_ts::strings_in(items)),
                _ => None,
            })
            &&& query.pattern == (match args.get("pattern"@) {
                Some(JsonTree::Str(pattern)) => Some(pattern),
                _ => None,
            })
            &&& query.detail == Detail::Signatures <==> args.get("detail"@) == Some(
                JsonTree::Str("signatures"@),
            )
            &&& query.detail == Detail::Full <==> args.get("detail"@) == Some(
                JsonTree::Str("full"@),
            )
        }),
        forall|query: QueryView|
            query.effective_detail() == (if query.detail == Detail::Names && (query.servers is Some
                || query.tools is Some) {
                Detail::Full
            } else {
                query.detail
            }),
{
    reveal_strlit("signatures");
    reveal_strlit("full");
    assert("signatures"@.len() != "full"@.len());
}

/// A listing holds each tool with its name, description, schema and hint, or
/// the problem; a query holds all that it asks for.
pub proof fn listings_hold_their_tools(listings: Seq<Listing>, i: int, k: int, query: Query)
    requires
        0 <= i < listings.len(),
    ensures
        listing_views(listings).len() == listings.len(),
        match listings[i] {
            Ok(tools) => {
                let seen = listing_views(listings)[i];
                &&& seen is Ok
                &&& seen->Ok_0.len() == tools@.len()
                &&& 0 <= k < tools@.len() ==> {
                    &&& seen->Ok_0[k].name == tools@[k].name@
                    &&& seen->Ok_0[k].description == text::optional_text(tools@[k].description)
                    &&& seen->Ok_0[k].input_schema == tools@[k].input_schema@
                    &&& seen->Ok_0[k].read_only_hint == tools@[k].read_only_hint
                }
            },
            Err(problem) => listing_views(listings)[i] == Err::<Seq<ToolInfoView>, Seq<char>>(
                problem@,
            ),
        },
        query@.servers is Some <==> query.servers is Some,
        query.servers matches Some(servers) ==> query@.servers->Some_0 == servers@.map_values(
            |name: String| name@,
        ),
        query@.tools is Some <==> query.tools is Some,
        query.tools matches Some(tools) ==> query@.tools->Some_0 == tools@.map_values(
            |name: String| name@,
        ),
        query@.pattern == text::optional_text(query.pattern),
        query@.detail == query.detail,
{
}

/// With no server there is nothing to wait for.
pub proof fn without_servers_nothing_takes_time()
    ensures
        longest(seq![]) == 0,
{
}

} // verus!

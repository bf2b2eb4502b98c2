//! The meta-server itself.
//!
//! One MCP server is registered with the agent, exposing two tools rather than
//! every plugin server's tools directly: `list_tools` describes what is
//! available, `execute` runs a script against it. What they are called, how
//! they are described and what a call of either leads to are decided here; the
//! transport is the host's.

use vstd::prelude::*;

use super::catalog;
use super::catalog::{Catalog, CatalogView, Query, ToolInfoView};
use crate::json;
use crate::json::{Json, JsonTree};
use crate::text;
use crate::text::{join_strings, same_text};

verus! {

/// Tool that describes what is reachable.
pub const LIST_TOOLS: &'static str = "list_tools";

/// Tool that runs a script.
pub const EXECUTE: &'static str = "execute";

/// What a client is told of the meta-server as a whole.
pub const INSTRUCTIONS: &'static str = "Symposium exposes this workspace's MCP tools through two tools. Start with `execute`; its description names the servers in scope.";

/// What a client may conclude from a tool's annotations.
#[derive(Debug, Clone, Copy, PartialEq, Eq)]
pub struct Annotations {
    pub read_only_hint: Option<bool>,
    pub destructive_hint: Option<bool>,
    pub open_world_hint: Option<bool>,
}

/// A tool as the meta-server advertises it.
#[derive(Debug, PartialEq)]
pub struct ToolDefinition {
    pub name: String,
    pub description: String,
    pub input_schema: Json,
    pub annotations: Annotations,
}

/// Serves the two meta-tools.
#[derive(Debug, Clone, PartialEq, Eq)]
pub struct MetaServer {
    /// Names of the backing servers this workspace makes available.
    servers: Vec<String>,
    /// Whether the workspace declares servers that could not be used.
    refusals: bool,
}

/// What a meta-server knows of its workspace.
#[verifier::ext_equal]
pub struct MetaView {
    pub servers: Seq<Seq<char>>,
    pub refusals: bool,
}

impl View for MetaServer {
    type V = MetaView;

    closed spec fn view(&self) -> MetaView {
        MetaView { servers: text::texts(self.servers@), refusals: self.refusals }
    }
}

/// The meta-server of a catalog.
pub open spec fn meta_of(catalog: CatalogView) -> MetaView {
    MetaView { servers: catalog.names(), refusals: catalog.rejected.len() > 0 }
}

// ── descriptions ─────────────────────────────────────────────────────

/// What `execute` is described as, whatever is in scope.
pub open spec fn execute_preamble() -> Seq<char> {
    "Run a JavaScript program with the workspace's MCP tools in scope.\n\nEach server is an object whose methods return promises, so a program can call several tools, filter between them, and return only what matters:\n\n  const rows = await sqlx.query({ sql: \"SELECT id FROM users\" });\n  return rows.filter(r => r.id > 100);\n\nWrite an async arrow function or a statement body that returns a value. Write plain JavaScript: no type annotations, interfaces, or generics.\n\n"@
}

/// What `execute` is described as: how to write a script, and the names of the
/// servers it can reach.
pub open spec fn execute_text(servers: Seq<Seq<char>>) -> Seq<char> {
    execute_preamble() + (if servers.len() == 0 {
        "No MCP servers apply to this workspace. Nothing is in scope for `execute`."@
    } else {
        "Servers in scope: "@ + text::join(servers, ", "@) + ".\nCall `"@ + LIST_TOOLS@
            + "` for their tools and signatures."@
    })
}

/// An object with one text field.
pub open spec fn tagged(key: Seq<char>, value: Seq<char>) -> JsonTree {
    JsonTree::Object(seq![(key, JsonTree::Str(value))])
}

/// The schema of a string parameter.
pub open spec fn text_parameter(description: Seq<char>) -> JsonTree {
    JsonTree::Object(
        seq![
            ("description"@, JsonTree::Str(description)),
            ("type"@, JsonTree::Str("string"@)),
        ],
    )
}

/// The schema of a parameter that is a list of strings.
pub open spec fn list_parameter(description: Seq<char>) -> JsonTree {
    JsonTree::Object(
        seq![
            ("description"@, JsonTree::Str(description)),
            ("items"@, tagged("type"@, "string"@)),
            ("type"@, JsonTree::Str("array"@)),
        ],
    )
}

/// The schema of the parameter that says how much to return.
pub open spec fn detail_parameter() -> JsonTree {
    JsonTree::Object(
        seq![
            ("description"@, JsonTree::Str("How much to return. Defaults to names."@)),
            (
                "enum"@,
                JsonTree::Array(
                    seq![
                        JsonTree::Str("names"@),
                        JsonTree::Str("signatures"@),
                        JsonTree::Str("full"@),
                    ],
                ),
            ),
            ("type"@, JsonTree::Str("string"@)),
        ],
    )
}

/// The schema of `list_tools`' arguments.
pub open spec fn list_tools_schema() -> JsonTree {
    JsonTree::Object(
        seq![
            (
                "properties"@,
                JsonTree::Object(
                    seq![
                        ("detail"@, detail_parameter()),
                        ("pattern"@, text_parameter("Glob matched against tool names."@)),
                        ("servers"@, list_parameter("Restrict to these servers."@)),
                        ("tools"@, list_parameter("Restrict to these tool names."@)),
                    ],
                ),
            ),
            ("type"@, JsonTree::Str("object"@)),
        ],
    )
}

/// The schema of `execute`'s arguments.
pub open spec fn execute_schema() -> JsonTree {
    JsonTree::Object(
        seq![
            (
                "properties"@,
                JsonTree::Object(
                    seq![("script"@, text_parameter("The JavaScript program to run."@))],
                ),
            ),
            ("required"@, JsonTree::Array(seq![JsonTree::Str("script"@)])),
            ("type"@, JsonTree::Str("object"@)),
        ],
    )
}

/// A field that holds a text.
fn text_field(key: &str, value: &str) -> (field: (String, Json))
    ensures
        field.0@ == key@,
        field.1@ == JsonTree::Str(value@),
{
    (key.to_string(), Json::Str(value.to_string()))
}

/// The schema of a string parameter.
fn text_parameter_schema(description: &str) -> (schema: Json)
    ensures
        schema@ == text_parameter(description@),
{
    let mut fields: Vec<(String, Json)> = Vec::new();
    fields.push(text_field("description", description));
    fields.push(text_field("type", "string"));
    assert(json::fields_of(fields@) =~= text_parameter(description@)->Object_0);
    Json::Object(fields)
}

/// The schema of a parameter that is a list of strings.
fn list_parameter_schema(description: &str) -> (schema: Json)
    ensures
        schema@ == list_parameter(description@),
{
    let mut items: Vec<(String, Json)> = Vec::new();
    items.push(text_field("type", "string"));
    assert(json::fields_of(items@) =~= tagged("type"@, "string"@)->Object_0);
    let mut fields: Vec<(String, Json)> = Vec::new();
    fields.push(text_field("description", description));
    fields.push(("items".to_string(), Json::Object(items)));
    fields.push(text_field("type", "array"));
    assert(json::fields_of(fields@) =~= list_parameter(description@)->Object_0);
    Json::Object(fields)
}

/// The schema of the parameter that says how much to return.
fn detail_parameter_schema() -> (schema: Json)
    ensures
        schema@ == detail_parameter(),
{
    let mut levels: Vec<Json> = Vec::new();
    levels.push(Json::Str("names".to_string()));
    levels.push(Json::Str("signatures".to_string()));
    levels.push(Json::Str("full".to_string()));
    assert(json::trees_of(levels@) =~= detail_parameter()->Object_0[1].1->Array_0);
    let mut fields: Vec<(String, Json)> = Vec::new();
    fields.push(text_field("description", "How much to return. Defaults to names."));
    fields.push(("enum".to_string(), Json::Array(levels)));
    fields.push(text_field("type", "string"));
    assert(json::fields_of(fields@) =~= detail_parameter()->Object_0);
    Json::Object(fields)
}

/// The schema of `list_tools`' arguments.
fn list_tools_parameters() -> (schema: Json)
    ensures
        schema@ == list_tools_schema(),
{
    let mut properties: Vec<(String, Json)> = Vec::new();
    properties.push(("detail".to_string(), detail_parameter_schema()));
    properties.push(
        ("pattern".to_string(), text_parameter_schema("Glob matched against tool names.")),
    );
    properties.push(("servers".to_string(), list_parameter_schema("Restrict to these servers.")));
    properties.push(
        ("tools".to_string(), list_parameter_schema("Restrict to these tool names.")),
    );
    assert(json::fields_of(properties@) =~= list_tools_schema()->Object_0[0].1->Object_0);
    let mut fields: Vec<(String, Json)> = Vec::new();
    fields.push(("properties".to_string(), Json::Object(properties)));
    fields.push(text_field("type", "object"));
    assert(json::fields_of(fields@) =~= list_tools_schema()->Object_0);
    Json::Object(fields)
}

/// The schema of `execute`'s arguments.
fn execute_parameters() -> (schema: Json)
    ensures
        schema@ == execute_schema(),
{
    let mut properties: Vec<(String, Json)> = Vec::new();
    properties.push(
        ("script".to_string(), text_parameter_schema("The JavaScript program to run.")),
    );
    assert(json::fields_of(properties@) =~= execute_schema()->Object_0[0].1->Object_0);
    let mut required: Vec<Json> = Vec::new();
    required.push(Json::Str("script".to_string()));
    assert(json::trees_of(required@) =~= execute_schema()->Object_0[1].1->Array_0);
    let mut fields: Vec<(String, Json)> = Vec::new();
    fields.push(("properties".to_string(), Json::Object(properties)));
    fields.push(("required".to_string(), Json::Array(required)));
    fields.push(text_field("type", "object"));
    assert(json::fields_of(fields@) =~= execute_schema()->Object_0);
    Json::Object(fields)
}

// ── calls ────────────────────────────────────────────────────────────

/// A text the caller is answered with.
#[derive(Debug, Clone, PartialEq, Eq)]
pub struct Reply {
    pub text: String,
    /// Whether the answer says that the call failed.
    pub is_error: bool,
}

/// What a call leads to.
#[derive(Debug, PartialEq)]
pub enum Step {
    /// Answer at once.
    Answer(Reply),
    /// Answer with a description of the tools a query asks about.
    Describe(Query),
    /// Run a script and answer with what it came to.
    Run(String),
    /// Refuse the call as one the protocol does not allow.
    Refuse(String),
}

/// Whether a reply is this text, said as a success or as a failure.
pub open spec fn answers(step: Step, said: Seq<char>, is_error: bool) -> bool {
    step matches Step::Answer(reply) && reply.text@ == said && reply.is_error == is_error
}

/// Whether a step is the right one for a call of `name` with `args`. Where
/// servers were refused there is something to describe even if none is in
/// scope.
pub open spec fn leads_to(meta: MetaView, name: Seq<char>, args: JsonTree, step: Step) -> bool {
    if name == LIST_TOOLS@ {
        if meta.servers.len() == 0 && !meta.refusals {
            answers(step, "No MCP servers apply to this workspace."@, false)
        } else {
            step matches Step::Describe(query) && query@ == catalog::query_in(args)
        }
    } else if name == EXECUTE@ {
        if meta.servers.len() == 0 {
            answers(
                step,
                "No MCP servers apply to this workspace, so there is nothing to call."@,
                true,
            )
        } else {
            match catalog::text_in(args.get("script"@)) {
                Some(script) => step matches Step::Run(source) && source@ == script,
                None => step matches Step::Refuse(reason) && reason@
                    == "`execute` needs a `script`"@,
            }
        }
    } else {
        step matches Step::Refuse(reason) && reason@ == "no such tool: "@ + name
            + ". Available: "@ + LIST_TOOLS@ + ", "@ + EXECUTE@
    }
}

/// Lines under a heading, set off by a blank line; nothing where there are none.
pub open spec fn under(heading: Seq<char>, lines: Seq<Seq<char>>) -> Seq<char> {
    if lines.len() == 0 {
        Seq::empty()
    } else {
        "\n\n"@ + heading + ":\n"@ + text::join(lines, "\n"@)
    }
}

/// What a script came to, with what it wrote to its console behind it, and then
/// why a server it might have called was out of its reach.
pub open spec fn run_text(
    encoded: Seq<char>,
    console: Seq<Seq<char>>,
    problems: Seq<Seq<char>>,
) -> Seq<char> {
    encoded + under("console"@, console) + under("problems"@, problems)
}

/// Add lines under a heading to a text, where there are any.
fn append_under(text: &mut String, heading: &str, lines: &Vec<String>)
    ensures
        final(text)@ == old(text)@ + under(heading@, text::texts(lines@)),
{
    if lines.len() > 0 {
        text.append("\n\n");
        text.append(heading);
        text.append(":\n");
        text.append(join_strings(lines.as_slice(), "\n").as_str());
    }
    assert(text@ =~= old(text)@ + under(heading@, text::texts(lines@)));
}

/// Answer with what a script came to: the JSON of its value, or of the tagged
/// error it ended in.
pub fn run_reply(
    encoded: &str,
    failed: bool,
    console: &Vec<String>,
    problems: &Vec<String>,
) -> (reply: Reply)
    ensures
        reply.text@ == run_text(encoded@, text::texts(console@), text::texts(problems@)),
        reply.is_error == failed,
{
    let mut text = encoded.to_string();
    append_under(&mut text, "console", console);
    append_under(&mut text, "problems", problems);
    Reply { text, is_error: failed }
}

impl MetaServer {
    /// Serve a workspace that makes these servers available and refuses none.
    pub fn new(servers: Vec<String>) -> (server: Self)
        ensures
            server@.servers == text::texts(servers@),
            !server@.refusals,
    {
        MetaServer { servers, refusals: false }
    }

    /// Serve what a catalog holds.
    pub fn of(catalog: &Catalog) -> (server: Self)
        ensures
            server@ == meta_of(catalog@),
    {
        MetaServer { servers: catalog.server_names(), refusals: catalog.has_refusals() }
    }

    /// The inventory carried in `execute`'s description.
    ///
    /// Naming the servers costs a few tokens each and saves a round trip: a
    /// small workspace needs no discovery call at all. Their tools are not
    /// listed here, so the cost grows with servers rather than with schemas.
    pub fn execute_description(&self) -> (description: String)
        ensures
            description@ == execute_text(self@.servers),
    {
        let mut text = "Run a JavaScript program with the workspace's MCP tools in scope.\n\nEach server is an object whose methods return promises, so a program can call several tools, filter between them, and return only what matters:\n\n  const rows = await sqlx.query({ sql: \"SELECT id FROM users\" });\n  return rows.filter(r => r.id > 100);\n\nWrite an async arrow function or a statement body that returns a value. Write plain JavaScript: no type annotations, interfaces, or generics.\n\n".to_string();
        let ghost head = text@;
        if self.servers.len() == 0 {
            text.append(
                "No MCP servers apply to this workspace. Nothing is in scope for `execute`.",
            );
        } else {
            text.append("Servers in scope: ");
            text.append(join_strings(self.servers.as_slice(), ", ").as_str());
            text.append(".\nCall `");
            text.append(LIST_TOOLS);
            text.append("` for their tools and signatures.");
            assert(text@ =~= execute_text(self@.servers));
        }
        text
    }

    /// The two tools, `list_tools` first.
    ///
    /// A script can call any tool in scope, so `execute`'s annotations have to
    /// describe the worst of them. Marking it read-only would let a filtering
    /// client treat arbitrary tool use as safe.
    pub fn tool_definitions(&self) -> (tools: Vec<ToolDefinition>)
        ensures
            tools@.len() == 2,
            tools@[0].name@ == LIST_TOOLS@,
            tools@[0].description@
                == "Describe the MCP tools available in this workspace. Returns names and descriptions by default; pass a filter or a higher detail level for full TypeScript signatures."@,
            tools@[0].input_schema@ == list_tools_schema(),
            tools@[0].annotations == (Annotations {
                read_only_hint: Some(true),
                destructive_hint: None,
                open_world_hint: None,
            }),
            tools@[1].name@ == EXECUTE@,
            tools@[1].description@ == execute_text(self@.servers),
            tools@[1].input_schema@ == execute_schema(),
            tools@[1].annotations == (Annotations {
                read_only_hint: Some(false),
                destructive_hint: Some(true),
                open_world_hint: Some(true),
            }),
    {
        let mut tools: Vec<ToolDefinition> = Vec::new();
        tools.push(
            ToolDefinition {
                name: LIST_TOOLS.to_string(),
                description: "Describe the MCP tools available in this workspace. Returns names and descriptions by default; pass a filter or a higher detail level for full TypeScript signatures.".to_string(),
                input_schema: list_tools_parameters(),
                annotations: Annotations {
                    read_only_hint: Some(true),
                    destructive_hint: None,
                    open_world_hint: None,
                },
            },
        );
        tools.push(
            ToolDefinition {
                name: EXECUTE.to_string(),
                description: self.execute_description(),
                input_schema: execute_parameters(),
                annotations: Annotations {
                    read_only_hint: Some(false),
                    destructive_hint: Some(true),
                    open_world_hint: Some(true),
                },
            },
        );
        tools
    }

    /// Decide what a call of one of the tools leads to. With nothing in scope
    /// both still answer, and say so, rather than failing in a way that reads
    /// as a broken connection. Servers that were refused are described all the
    /// same: one silently missing looks like one that was never declared.
    pub fn call_tool(&self, name: &str, args: &Json) -> (step: Step)
        ensures
            leads_to(self@, name@, args@, step),
    {
        proof {
            reveal_strlit("list_tools");
            reveal_strlit("execute");
            assert("list_tools"@.len() != "execute"@.len());
        }
        if same_text(name, LIST_TOOLS) {
            if self.servers.len() == 0 && !self.refusals {
                return Step::Answer(
                    Reply {
                        text: "No MCP servers apply to this workspace.".to_string(),
                        is_error: false,
                    },
                );
            }
            return Step::Describe(Query::from_arguments(args));
        }
        if same_text(name, EXECUTE) {
            if self.servers.len() == 0 {
                return Step::Answer(
                    Reply {
                        text: "No MCP servers apply to this workspace, so there is nothing to call.".to_string(),
                        is_error: true,
                    },
                );
            }
            return match args.get("script") {
                Some(Json::Str(script)) => Step::Run(script.clone()),
                _ => Step::Refuse("`execute` needs a `script`".to_string()),
            };
        }
        let mut reason = "no such tool: ".to_string();
        reason.append(name);
        reason.append(". Available: ");
        reason.append(LIST_TOOLS);
        reason.append(", ");
        reason.append(EXECUTE);
        Step::Refuse(reason)
    }
}

impl Default for MetaServer {
    fn default() -> (server: Self)
        ensures
            server@.servers.len() == 0,
            !server@.refusals,
    {
        MetaServer { servers: Vec::new(), refusals: false }
    }
}

// ── laws ─────────────────────────────────────────────────────────────

/// Every server in scope is named in `execute`'s description, so a small
/// workspace needs no discovery call.
pub proof fn every_server_is_named(servers: Seq<Seq<char>>, i: int)
    requires
        0 <= i < servers.len(),
    ensures
        text::has_piece(execute_text(servers), servers[i]),
{
    let named = text::join(servers, ", "@);
    let head = execute_preamble() + "Servers in scope: "@;
    let tail = ".\nCall `"@ + LIST_TOOLS@ + "` for their tools and signatures."@;
    text::lemma_part_in_join(servers, ", "@, i);
    assert(execute_text(servers) =~= head + named + tail);
    text::lemma_piece_within(execute_text(servers), head, named, tail, servers[i]);
}

/// A call of a tool that does not exist is refused with the names of those
/// that do, and leads to nothing else.
pub proof fn unknown_tools_are_told_the_available_ones(
    meta: MetaView,
    name: Seq<char>,
    args: JsonTree,
    step: Step,
)
    requires
        leads_to(meta, name, args, step),
        name != LIST_TOOLS@,
        name != EXECUTE@,
    ensures
        step is Refuse,
        text::has_piece(step->Refuse_0@, LIST_TOOLS@),
        text::has_piece(step->Refuse_0@, EXECUTE@),
{
    let reason = step->Refuse_0@;
    let head = "no such tool: "@ + name + ". Available: "@;
    text::lemma_piece_of_itself(LIST_TOOLS@);
    text::lemma_piece_of_itself(EXECUTE@);
    assert(reason =~= head + LIST_TOOLS@ + (", "@ + EXECUTE@));
    text::lemma_piece_within(reason, head, LIST_TOOLS@, ", "@ + EXECUTE@, LIST_TOOLS@);
    assert(reason =~= (head + LIST_TOOLS@ + ", "@) + EXECUTE@ + seq![]);
    text::lemma_piece_within(reason, head + LIST_TOOLS@ + ", "@, EXECUTE@, seq![], EXECUTE@);
}

/// With no server in scope no script is run.
pub proof fn nothing_runs_without_servers(
    meta: MetaView,
    name: Seq<char>,
    args: JsonTree,
    step: Step,
)
    requires
        leads_to(meta, name, args, step),
        meta.servers.len() == 0,
    ensures
        !(step is Run),
{
    reveal_strlit("list_tools");
    reveal_strlit("execute");
    assert(LIST_TOOLS@.len() != EXECUTE@.len());
}

/// A call of `list_tools` is answered with the description of what it asks
/// about, whether that is given at once or looked up, and each server that was
/// refused is in it.
pub proof fn refusals_reach_the_model(
    catalog: CatalogView,
    args: JsonTree,
    listings: Seq<Result<Seq<ToolInfoView>, Seq<char>>>,
    step: Step,
)
    requires
        leads_to(meta_of(catalog), LIST_TOOLS@, args, step),
    ensures
        match step {
            Step::Describe(query) => query@ == catalog::query_in(args),
            Step::Answer(reply) => !reply.is_error && reply.text@ == catalog::description_of(
                catalog,
                catalog::query_in(args),
                listings,
            ),
            _ => false,
        },
        forall|i: int|
            0 <= i < catalog.rejected.len() ==> step is Describe && text::has_piece(
                catalog::description_of(catalog, catalog::query_in(args), listings),
                catalog::problem_text(
                    (#[trigger] catalog.rejected[i]).0,
                    catalog.rejected[i].1,
                ),
            ),
{
    assert forall|i: int| 0 <= i < catalog.rejected.len() implies step is Describe
        && text::has_piece(
        catalog::description_of(catalog, catalog::query_in(args), listings),
        catalog::problem_text((#[trigger] catalog.rejected[i]).0, catalog.rejected[i].1),
    ) by {
        catalog::refusals_are_always_reported(catalog, catalog::query_in(args), listings, i);
    }
}

/// What each tool leads to. A call of `list_tools` describes, or says that
/// there is nothing to describe; a call of `execute` runs the script it is
/// given, says that there is nothing to call, or is refused for want of a
/// script; a call of anything else is refused with the names there are.
pub proof fn calls_lead_where_their_names_say(
    meta: MetaView,
    name: Seq<char>,
    args: JsonTree,
    step: Step,
)
    requires
        leads_to(meta, name, args, step),
    ensures
        name == "list_tools"@ && (meta.servers.len() > 0 || meta.refusals) ==> step is Describe
            && step->Describe_0@ == catalog::query_in(args),
        name == "list_tools"@ && meta.servers.len() == 0 && !meta.refusals ==> step is Answer
            && step->Answer_0.text@ == "No MCP servers apply to this workspace."@
            && !step->Answer_0.is_error,
        name == "execute"@ && meta.servers.len() > 0 ==> (match args.get("script"@) {
            Some(JsonTree::Str(script)) => step is Run && step->Run_0@ == script,
            _ => step is Refuse && step->Refuse_0@ == "`execute` needs a `script`"@,
        }),
        name == "execute"@ && meta.servers.len() == 0 ==> step is Answer && step->Answer_0.text@
            == "No MCP servers apply to this workspace, so there is nothing to call."@
            && step->Answer_0.is_error,
        name != "list_tools"@ && name != "execute"@ ==> step is Refuse && step->Refuse_0@
            == "no such tool: "@ + name + ". Available: list_tools, execute"@,
{
    reveal_strlit("list_tools");
    reveal_strlit("execute");
    reveal_strlit(", ");
    reveal_strlit(". Available: ");
    reveal_strlit(". Available: list_tools, execute");
    assert("list_tools"@.len() != "execute"@.len());
    assert(". Available: list_tools, execute"@ =~= ". Available: "@ + "list_tools"@ + ", "@
        + "execute"@);
    if name != "list_tools"@ && name != "execute"@ {
        assert(step->Refuse_0@ =~= "no such tool: "@ + name
            + ". Available: list_tools, execute"@);
    }
}

/// A reply is what the script came to, with every line of its console and every
/// problem behind it, each kind under its heading; what is empty is left out.
pub proof fn a_reply_holds_all_there_is_to_say(
    encoded: Seq<char>,
    console: Seq<Seq<char>>,
    problems: Seq<Seq<char>>,
)
    ensures
        run_text(encoded, console, problems) == encoded + (if console.len() == 0 {
            seq![]
        } else {
            "\n\nconsole:\n"@ + text::join(console, seq!['\n'])
        }) + (if problems.len() == 0 {
            seq![]
        } else {
            "\n\nproblems:\n"@ + text::join(problems, seq!['\n'])
        }),
{
    reveal_strlit("\n");
    reveal_strlit("\n\n");
    reveal_strlit(":\n");
    reveal_strlit("console");
    reveal_strlit("problems");
    reveal_strlit("\n\nconsole:\n");
    reveal_strlit("\n\nproblems:\n");
    assert("\n"@ =~= seq!['\n']);
    assert("\n\nconsole:\n"@ =~= "\n\n"@ + "console"@ + ":\n"@);
    assert("\n\nproblems:\n"@ =~= "\n\n"@ + "problems"@ + ":\n"@);
    assert(under("console"@, console) =~= (if console.len() == 0 {
        seq![]
    } else {
        "\n\nconsole:\n"@ + text::join(console, seq!['\n'])
    }));
    assert(under("problems"@, problems) =~= (if problems.len() == 0 {
        seq![]
    } else {
        "\n\nproblems:\n"@ + text::join(problems, seq!['\n'])
    }));
}

/// `execute` is described by how to write a script, and then by the servers in
/// scope, all of them in order, or by there being none.
pub proof fn execute_is_described_in_full(servers: Seq<Seq<char>>)
    ensures
        execute_text(servers) == "Run a JavaScript program with the workspace's MCP tools in scope.\n\nEach server is an object whose methods return promises, so a program can call several tools, filter between them, and return only what matters:\n\n  const rows = await sqlx.query({ sql: \"SELECT id FROM users\" });\n  return rows.filter(r => r.id > 100);\n\nWrite an async arrow function or a statement body that returns a value. Write plain JavaScript: no type annotations, interfaces, or generics.\n\n"@ + (if servers.len() == 0 {
            "No MCP servers apply to this workspace. Nothing is in scope for `execute`."@
        } else {
            "Servers in scope: "@ + text::join(servers, ", "@) + ".\nCall `"@ + "list_tools"@
                + "` for their tools and signatures."@
        }),
{
}

/// A meta-server knows every server of its catalog by name, in order, and
/// whether any was refused.
pub proof fn a_meta_server_knows_its_catalog(catalog: CatalogView)
    ensures
        meta_of(catalog).servers.len() == catalog.servers.len(),
        forall|i: int|
            0 <= i < catalog.servers.len() ==> #[trigger] meta_of(catalog).servers[i]
                == catalog.servers[i].name,
        meta_of(catalog).refusals <==> catalog.rejected.len() > 0,
{
}

} // verus!

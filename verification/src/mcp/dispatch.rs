//! Reaching backing servers from inside the sandbox.
//!
//! A script calls `await sqlx.query({...})`. That name is an object installed
//! by the host, whose methods hand the call to whoever is driving the sandbox
//! and wait for the answer. What is installed, what is handed over and how an
//! answer comes back are decided here; the engine and its channel are the
//! host's.

use vstd::prelude::*;

use crate::json::{Json, JsonTree};

verus! {

/// A tool call made by a script, waiting on its result.
#[derive(Debug, PartialEq)]
pub struct ToolCall {
    /// Server name as declared by the plugin, not the sanitized spelling.
    pub server: String,
    /// Tool name as it goes on the wire.
    pub tool: String,
    /// The single argument the script passed, or null.
    pub args: Json,
}

/// One tool reachable on a namespace.
#[derive(Debug, Clone, PartialEq, Eq)]
pub struct Binding {
    /// Property name in JavaScript. A tool whose wire name is not an
    /// identifier is bound twice, under the quoted name and a sanitized one.
    pub key: String,
    /// Name to send to the backing server.
    pub wire_name: String,
}

/// One backing server as the script sees it.
#[derive(Debug, Clone, PartialEq, Eq)]
pub struct Namespace {
    /// Global the object is installed on.
    pub key: String,
    /// Server name to send with each call.
    pub server: String,
    pub bindings: Vec<Binding>,
}

/// The property names and wire names of some bindings.
pub open spec fn binding_views(bindings: Seq<Binding>) -> Seq<(Seq<char>, Seq<char>)> {
    bindings.map_values(|binding: Binding| (binding.key@, binding.wire_name@))
}

/// What a namespace holds.
#[verifier::ext_equal]
pub struct NamespaceView {
    pub key: Seq<char>,
    pub server: Seq<char>,
    pub bindings: Seq<(Seq<char>, Seq<char>)>,
}

impl View for Namespace {
    type V = NamespaceView;

    open spec fn view(&self) -> NamespaceView {
        NamespaceView {
            key: self.key@,
            server: self.server@,
            bindings: binding_views(self.bindings@),
        }
    }
}

/// What some namespaces hold.
pub open spec fn namespace_views(namespaces: Seq<Namespace>) -> Seq<NamespaceView> {
    namespaces.map_values(|namespace: Namespace| namespace@)
}

/// The call a bound function makes: it names the server as declared and the
/// tool as it goes on the wire, and passes the script's one argument on. A
/// missing argument is sent as null.
pub fn tool_call(namespace: &Namespace, binding: &Binding, args: Option<Json>) -> (call: ToolCall)
    ensures
        call.server@ == namespace@.server,
        call.tool@ == binding.wire_name@,
        call.args@ == (match args {
            Some(args) => args@,
            None => JsonTree::Null,
        }),
{
    ToolCall {
        server: namespace.server.clone(),
        tool: binding.wire_name.clone(),
        args: match args {
            Some(args) => args,
            None => Json::Null,
        },
    }
}

/// How a call came back.
#[derive(Debug, PartialEq)]
pub enum Answer {
    /// Nobody is left to take the call.
    Unsent,
    /// The caller dropped the call without answering it.
    Abandoned,
    /// The server answered, with a value or with what went wrong.
    Settled(Result<Json, String>),
}

/// What the script sees of an answer: a value, or the message of the
/// exception to throw.
pub open spec fn seen_of(server: Seq<char>, tool: Seq<char>, answer: Answer) -> Result<
    JsonTree,
    Seq<char>,
> {
    match answer {
        Answer::Unsent => Err("tool dispatch is no longer available"@),
        Answer::Abandoned => Err(server + "."@ + tool + " did not answer"@),
        Answer::Settled(Ok(value)) => Ok(value@),
        Answer::Settled(Err(message)) => Err(message@),
    }
}

/// What a value or a message holds.
pub open spec fn outcome_view(outcome: Result<Json, String>) -> Result<JsonTree, Seq<char>> {
    match outcome {
        Ok(value) => Ok(value@),
        Err(message) => Err(message@),
    }
}

/// Turn an answer into what the script sees. A failing tool throws, so a
/// script uses ordinary `try`/`catch` rather than inspecting a result shape;
/// an abandoned call throws too, so the script's own error handling runs.
pub fn settle(server: &str, tool: &str, answer: Answer) -> (outcome: Result<Json, String>)
    ensures
        outcome_view(outcome) == seen_of(server@, tool@, answer),
{
    match answer {
        Answer::Unsent => Err("tool dispatch is no longer available".to_string()),
        Answer::Abandoned => {
            let mut message = server.to_string();
            message.append(".");
            message.append(tool);
            message.append(" did not answer");
            Err(message)
        },
        Answer::Settled(Ok(value)) => Ok(value),
        Answer::Settled(Err(message)) => Err(message),
    }
}

// ── laws ─────────────────────────────────────────────────────────────

/// A call gives the script a value only where the server answered with that
/// value; everything else throws.
pub proof fn only_an_answer_yields_a_value(server: Seq<char>, tool: Seq<char>, answer: Answer)
    ensures
        seen_of(server, tool, answer) is Ok <==> answer matches Answer::Settled(Ok(_)),
        answer matches Answer::Settled(Ok(value)) ==> seen_of(server, tool, answer) == Ok::<
            JsonTree,
            Seq<char>,
        >(value@),
{
}

/// A script sees the value a server answered with, throws what the server said
/// went wrong, and throws why there was no answer where there was none.
pub proof fn scripts_see_what_was_answered(
    server: Seq<char>,
    tool: Seq<char>,
    value: Json,
    message: String,
)
    ensures
        seen_of(server, tool, Answer::Settled(Ok(value))) == Ok::<JsonTree, Seq<char>>(value@),
        seen_of(server, tool, Answer::Settled(Err(message))) == Err::<JsonTree, Seq<char>>(
            message@,
        ),
        seen_of(server, tool, Answer::Unsent) == Err::<JsonTree, Seq<char>>(
            "tool dispatch is no longer available"@,
        ),
        seen_of(server, tool, Answer::Abandoned) == Err::<JsonTree, Seq<char>>(
            server + "."@ + tool + " did not answer"@,
        ),
        outcome_view(Ok::<Json, String>(value)) == Ok::<JsonTree, Seq<char>>(value@),
        outcome_view(Err::<Json, String>(message)) == Err::<JsonTree, Seq<char>>(message@),
{
}

/// A namespace holds its global, its server and all of its bindings.
pub proof fn namespaces_hold_their_bindings(namespaces: Seq<Namespace>, i: int, k: int)
    requires
        0 <= i < namespaces.len(),
    ensures
        namespace_views(namespaces).len() == namespaces.len(),
        namespace_views(namespaces)[i].key == namespaces[i].key@,
        namespace_views(namespaces)[i].server == namespaces[i].server@,
        namespace_views(namespaces)[i].bindings.len() == namespaces[i].bindings@.len(),
        0 <= k < namespaces[i].bindings@.len() ==> namespace_views(namespaces)[i].bindings[k] == (
            namespaces[i].bindings@[k].key@,
            namespaces[i].bindings@[k].wire_name@,
        ),
{
}

} // verus!

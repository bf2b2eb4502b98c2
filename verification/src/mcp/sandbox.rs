//! The JavaScript sandbox scripts run in.
//!
//! A script is model-written and untrusted in the sense that matters here: it
//! may loop forever, allocate without bound, or recurse until the stack gives
//! out. None of those may take the agent's session with them.
//!
//! Two layers of deadline do the work. An interrupt stops a script spinning in
//! the interpreter; an outer timeout catches one blocked awaiting a host call,
//! where the interpreter is not running and the interrupt cannot fire. Neither
//! alone is sufficient. The engine and its thread are the host's; the bounds
//! it runs under, and what its ending means, are decided here.

use vstd::prelude::*;

use crate::json;
use crate::json::{Json, JsonTree};
use crate::text;
use crate::text::decimal_string;

verus! {

/// Extra room beyond the JavaScript stack limit for the interpreter's own
/// frames. Without it a script that hits the JavaScript limit would instead
/// overflow the thread's stack, which is a crash rather than an exception.
pub const STACK_HEADROOM: usize = 0x10_0000;

/// How long the outer deadline waits past the interrupt deadline, in
/// milliseconds. The interrupt produces a precise error, so it gets a moment
/// to win before the blunt outer timeout fires.
pub const OUTER_GRACE_MS: u64 = 250;

/// Bounds on one script execution.
#[derive(Debug, Clone, Copy, PartialEq, Eq)]
pub struct Limits {
    pub timeout_ms: u64,
    pub memory_bytes: usize,
    pub stack_bytes: usize,
}

impl Default for Limits {
    fn default() -> (limits: Self)
        ensures
            limits.timeout_ms == 120_000,
            limits.memory_bytes == 64 * 1024 * 1024,
            limits.stack_bytes == 1024 * 1024,
    {
        Limits { timeout_ms: 120_000, memory_bytes: 0x400_0000, stack_bytes: 0x10_0000 }
    }
}

/// Why a script produced no value.
///
/// Reported as a tagged object so the model can tell a limit it exceeded from
/// a mistake in its own code, and retry accordingly.
#[derive(Debug, Clone, PartialEq, Eq)]
pub enum SandboxError {
    ScriptTimeout { limit_secs: u64 },
    MemoryExhausted { limit_mb: u64 },
    ScriptError { message: String },
    Internal { message: String },
}

/// An error as text.
pub open spec fn message_of(error: SandboxError) -> Seq<char> {
    match error {
        SandboxError::ScriptTimeout { limit_secs } => "script exceeded its "@ + text::decimal(
            limit_secs as nat,
        ) + "s deadline"@,
        SandboxError::MemoryExhausted { limit_mb } => "script exceeded its "@ + text::decimal(
            limit_mb as nat,
        ) + "MB memory limit"@,
        SandboxError::ScriptError { message } => message@,
        SandboxError::Internal { message } => message@,
    }
}

/// The tag an error is reported under.
pub open spec fn tag_of(error: SandboxError) -> Seq<char> {
    match error {
        SandboxError::ScriptTimeout { .. } => "script_timeout"@,
        SandboxError::MemoryExhausted { .. } => "memory_exhausted"@,
        SandboxError::ScriptError { .. } => "script_error"@,
        SandboxError::Internal { .. } => "internal"@,
    }
}

/// What an error reports beside its tag.
pub open spec fn detail_of(error: SandboxError) -> (Seq<char>, JsonTree) {
    match error {
        SandboxError::ScriptTimeout { limit_secs } => (
            "limit_secs"@,
            JsonTree::Number(text::decimal(limit_secs as nat)),
        ),
        SandboxError::MemoryExhausted { limit_mb } => (
            "limit_mb"@,
            JsonTree::Number(text::decimal(limit_mb as nat)),
        ),
        SandboxError::ScriptError { message } => ("message"@, JsonTree::Str(message@)),
        SandboxError::Internal { message } => ("message"@, JsonTree::Str(message@)),
    }
}

impl SandboxError {
    /// The error as text.
    pub fn message(&self) -> (message: String)
        ensures
            message@ == message_of(*self),
    {
        match self {
            SandboxError::ScriptTimeout { limit_secs } => {
                let mut text = "script exceeded its ".to_string();
                text.append(decimal_string(*limit_secs as u128).as_str());
                text.append("s deadline");
                text
            },
            SandboxError::MemoryExhausted { limit_mb } => {
                let mut text = "script exceeded its ".to_string();
                text.append(decimal_string(*limit_mb as u128).as_str());
                text.append("MB memory limit");
                text
            },
            SandboxError::ScriptError { message } => message.clone(),
            SandboxError::Internal { message } => message.clone(),
        }
    }

    /// The error as a tagged object: its tag, then what it reports.
    pub fn to_value(&self) -> (value: Json)
        ensures
            value@ == JsonTree::Object(
                seq![("error"@, JsonTree::Str(tag_of(*self))), detail_of(*self)],
            ),
    {
        let (tag, key, detail): (&str, &str, Json) = match self {
            SandboxError::ScriptTimeout { limit_secs } => (
                "script_timeout",
                "limit_secs",
                Json::Number(decimal_string(*limit_secs as u128)),
            ),
            SandboxError::MemoryExhausted { limit_mb } => (
                "memory_exhausted",
                "limit_mb",
                Json::Number(decimal_string(*limit_mb as u128)),
            ),
            SandboxError::ScriptError { message } => (
                "script_error",
                "message",
                Json::Str(message.clone()),
            ),
            SandboxError::Internal { message } => (
                "internal",
                "message",
                Json::Str(message.clone()),
            ),
        };
        let mut fields: Vec<(String, Json)> = Vec::new();
        fields.push(("error".to_string(), Json::Str(tag.to_string())));
        fields.push((key.to_string(), detail));
        assert(json::fields_of(fields@) =~= seq![
            ("error"@, JsonTree::Str(tag_of(*self))),
            detail_of(*self),
        ]);
        Json::Object(fields)
    }
}

/// A failure of the sandbox itself, with its cause behind what was attempted.
fn internal(attempt: &str, cause: &str) -> (error: SandboxError)
    ensures
        error matches SandboxError::Internal { message } && message@ == attempt@ + cause@,
{
    let mut message = attempt.to_string();
    message.append(cause);
    SandboxError::Internal { message }
}

/// Whether a heap still held four fifths or more of its budget.
pub open spec fn nearly_full(allocated: nat, budget: nat) -> bool {
    allocated * 10 >= budget * 8
}

/// Decide which limit, if any, a failure represents.
///
/// The engine surfaces both an interrupt and an allocation failure as ordinary
/// exceptions, so the cause has to be recovered from the surrounding state
/// rather than the message: whether the deadline has passed, and how much was
/// still allocated when the exception surfaced. An exhausted heap in
/// particular throws a null value, because there is no memory left to build an
/// error object with.
pub fn classify(
    message: String,
    past_deadline: bool,
    limits: Limits,
    allocated: usize,
) -> (error: SandboxError)
    ensures
        past_deadline ==> error == (SandboxError::ScriptTimeout {
            limit_secs: (limits.timeout_ms / 1000) as u64,
        }),
        !past_deadline && nearly_full(allocated as nat, limits.memory_bytes as nat) ==> error == (
        SandboxError::MemoryExhausted {
            limit_mb: (limits.memory_bytes as nat / 0x10_0000) as u64,
        }),
        !past_deadline && !nearly_full(allocated as nat, limits.memory_bytes as nat) ==> error == (
        SandboxError::ScriptError { message }),
{
    if past_deadline {
        return SandboxError::ScriptTimeout { limit_secs: limits.timeout_ms / 1000 };
    }
    // Still holding most of the budget when the exception surfaced.
    if (allocated as u128) * 10 >= (limits.memory_bytes as u128) * 8 {
        return SandboxError::MemoryExhausted {
            limit_mb: (limits.memory_bytes / 0x10_0000) as u64,
        };
    }
    SandboxError::ScriptError { message }
}

/// How a run of the engine ended.
#[derive(Debug, PartialEq)]
pub enum Ending {
    /// The thread it runs on could not be started.
    NoThread { cause: String },
    /// The runtime on that thread could not be started.
    NoRuntime { cause: String },
    /// The engine could not be set up.
    NoEngine { cause: String },
    /// The script produced a value.
    Value(Json),
    /// The script failed, with what was known when it did.
    Failed { message: String, past_deadline: bool, allocated: usize },
    /// The thread ended without reporting.
    Silent,
    /// The outer deadline passed.
    Overdue,
}

/// What a value or an error holds.
pub open spec fn result_view(result: Result<Json, SandboxError>) -> Result<
    JsonTree,
    SandboxError,
> {
    match result {
        Ok(value) => Ok(value@),
        Err(error) => Err(error),
    }
}

/// Whether an error is a failure of the sandbox itself, said in these words.
pub open spec fn is_internal(result: Result<Json, SandboxError>, said: Seq<char>) -> bool {
    result matches Err(SandboxError::Internal { message }) && message@ == said
}

/// Runs one script under [`Limits`].
#[derive(Debug, Clone, Copy, PartialEq, Eq)]
pub struct Sandbox {
    limits: Limits,
}

impl View for Sandbox {
    type V = Limits;

    closed spec fn view(&self) -> Limits {
        self.limits
    }
}

impl Sandbox {
    pub fn new(limits: Limits) -> (sandbox: Self)
        ensures
            sandbox@ == limits,
    {
        Sandbox { limits }
    }

    /// The bounds scripts run under.
    pub fn limits(&self) -> (limits: Limits)
        ensures
            limits == self@,
    {
        self.limits
    }

    /// The stack the engine's thread needs: what scripts may use and the
    /// interpreter's own frames.
    pub fn thread_stack_bytes(&self) -> (bytes: usize)
        requires
            self@.stack_bytes + STACK_HEADROOM <= usize::MAX,
        ensures
            bytes == self@.stack_bytes + STACK_HEADROOM,
    {
        self.limits.stack_bytes + STACK_HEADROOM
    }

    /// How long to wait for the engine's thread, so that the interrupt fires
    /// before the outer deadline does.
    pub fn outer_timeout_ms(&self) -> (ms: u64)
        requires
            self@.timeout_ms + OUTER_GRACE_MS <= u64::MAX,
        ensures
            ms == self@.timeout_ms + OUTER_GRACE_MS,
            ms > self@.timeout_ms,
    {
        self.limits.timeout_ms + OUTER_GRACE_MS
    }

    /// What an ending means for whoever asked for the script to be run.
    pub fn conclude(&self, ending: Ending) -> (result: Result<Json, SandboxError>)
        ensures
            match ending {
                Ending::NoThread { cause } => is_internal(
                    result,
                    "could not start sandbox thread: "@ + cause@,
                ),
                Ending::NoRuntime { cause } => is_internal(
                    result,
                    "could not start sandbox runtime: "@ + cause@,
                ),
                Ending::NoEngine { cause } => is_internal(result, cause@),
                Ending::Value(value) => result_view(result) == Ok::<JsonTree, SandboxError>(
                    value@,
                ),
                Ending::Failed { message, past_deadline, allocated } => {
                    &&& past_deadline ==> result == Err::<Json, SandboxError>(
                        SandboxError::ScriptTimeout {
                            limit_secs: (self@.timeout_ms / 1000) as u64,
                        },
                    )
                    &&& !past_deadline && nearly_full(
                        allocated as nat,
                        self@.memory_bytes as nat,
                    ) ==> result == Err::<Json, SandboxError>(
                        SandboxError::MemoryExhausted {
                            limit_mb: (self@.memory_bytes as nat / 0x10_0000) as u64,
                        },
                    )
                    &&& !past_deadline && !nearly_full(
                        allocated as nat,
                        self@.memory_bytes as nat,
                    ) ==> result == Err::<Json, SandboxError>(
                        SandboxError::ScriptError { message },
                    )
                },
                Ending::Silent => is_internal(result, "sandbox thread ended without reporting"@),
                Ending::Overdue => result == Err::<Json, SandboxError>(
                    SandboxError::ScriptTimeout { limit_secs: (self@.timeout_ms / 1000) as u64 },
                ),
            },
    {
        match ending {
            Ending::NoThread { cause } => Err(
                internal("could not start sandbox thread: ", cause.as_str()),
            ),
            Ending::NoRuntime { cause } => Err(
                internal("could not start sandbox runtime: ", cause.as_str()),
            ),
            Ending::NoEngine { cause } => Err(SandboxError::Internal { message: cause }),
            Ending::Value(value) => Ok(value),
            Ending::Failed { message, past_deadline, allocated } => Err(
                classify(message, past_deadline, self.limits, allocated),
            ),
            // The thread dropped its end of the channel.
            Ending::Silent => Err(
                SandboxError::Internal {
                    message: "sandbox thread ended without reporting".to_string(),
                },
            ),
            // A script awaiting a host call that never resolves leaves the
            // interpreter idle, so only the outer deadline can end it.
            Ending::Overdue => Err(
                SandboxError::ScriptTimeout { limit_secs: self.limits.timeout_ms / 1000 },
            ),
        }
    }
}

impl Default for Sandbox {
    fn default() -> (sandbox: Self)
        ensures
            sandbox@.timeout_ms == 120_000,
            sandbox@.memory_bytes == 64 * 1024 * 1024,
            sandbox@.stack_bytes == 1024 * 1024,
    {
        Sandbox { limits: Limits::default() }
    }
}

// ── laws ─────────────────────────────────────────────────────────────

/// Each kind of error is reported under a tag of its own, so the model can
/// tell them apart.
pub proof fn tags_tell_errors_apart(one: SandboxError, other: SandboxError)
    ensures
        tag_of(one) == tag_of(other) <==> {
            ||| one is ScriptTimeout && other is ScriptTimeout
            ||| one is MemoryExhausted && other is MemoryExhausted
            ||| one is ScriptError && other is ScriptError
            ||| one is Internal && other is Internal
        },
{
    reveal_strlit("script_timeout");
    reveal_strlit("memory_exhausted");
    reveal_strlit("script_error");
    reveal_strlit("internal");
    assert("script_timeout"@.len() == 14);
    assert("memory_exhausted"@.len() == 16);
    assert("script_error"@.len() == 12);
    assert("internal"@.len() == 8);
}

/// Two errors reported alike are alike.
pub proof fn reports_determine_errors(one: SandboxError, other: SandboxError)
    requires
        tag_of(one) == tag_of(other),
        detail_of(one) == detail_of(other),
    ensures
        message_of(one) == message_of(other),
{
    tags_tell_errors_apart(one, other);
    match one {
        SandboxError::ScriptTimeout { limit_secs } => {
            text::lemma_decimal(limit_secs as nat, other->limit_secs as nat);
        },
        SandboxError::MemoryExhausted { limit_mb } => {
            text::lemma_decimal(limit_mb as nat, other->limit_mb as nat);
        },
        _ => {},
    }
}

/// What an error is reported as: its tag, the one detail that goes with it, and
/// what is said of it.
pub proof fn errors_are_reported_in_full(secs: u64, mb: u64, message: String)
    ensures
        ({
            let timeout = SandboxError::ScriptTimeout { limit_secs: secs };
            let memory = SandboxError::MemoryExhausted { limit_mb: mb };
            let thrown = SandboxError::ScriptError { message };
            let internal = SandboxError::Internal { message };
            &&& tag_of(timeout) == "script_timeout"@
            &&& tag_of(memory) == "memory_exhausted"@
            &&& tag_of(thrown) == "script_error"@
            &&& tag_of(internal) == "internal"@
            &&& detail_of(timeout) == ("limit_secs"@, JsonTree::Number(text::decimal(secs as nat)))
            &&& detail_of(memory) == ("limit_mb"@, JsonTree::Number(text::decimal(mb as nat)))
            &&& detail_of(thrown) == ("message"@, JsonTree::Str(message@))
            &&& detail_of(internal) == ("message"@, JsonTree::Str(message@))
            &&& message_of(timeout) == "script exceeded its "@ + text::decimal(secs as nat)
                + "s deadline"@
            &&& message_of(memory) == "script exceeded its "@ + text::decimal(mb as nat)
                + "MB memory limit"@
            &&& message_of(thrown) == message@
            &&& message_of(internal) == message@
        }),
{
}

/// A failure counts as running out of memory from four fifths of the budget on,
/// and at no less. What is said of a failure of the sandbox itself is what its
/// report carries, and a value is what the script came to.
pub proof fn memory_is_exhausted_at_four_fifths(
    allocated: nat,
    budget: nat,
    value: Json,
    message: String,
    said: Seq<char>,
)
    ensures
        nearly_full(allocated, budget) <==> 5 * allocated >= 4 * budget,
        is_internal(Err(SandboxError::Internal { message }), said) <==> message@ == said,
        !is_internal(Ok(value), said),
        !is_internal(Err(SandboxError::ScriptError { message }), said),
        result_view(Ok::<Json, SandboxError>(value)) == Ok::<JsonTree, SandboxError>(value@),
        result_view(Err::<Json, SandboxError>(SandboxError::ScriptError { message })) == Err::<
            JsonTree,
            SandboxError,
        >(SandboxError::ScriptError { message }),
{
}

} // verus!

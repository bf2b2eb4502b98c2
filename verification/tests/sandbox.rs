//! The bounds scripts run under, and what their endings mean.

use symposium::json::Json;
use symposium::mcp::sandbox::{
    classify, Ending, Limits, Sandbox, SandboxError, OUTER_GRACE_MS, STACK_HEADROOM,
};

/// The model is told what it hit, in a form it can act on.
#[test]
fn errors_serialize_as_tagged_objects() {
    let err = SandboxError::ScriptTimeout { limit_secs: 120 };
    assert_eq!(
        err.to_value(),
        Json::Object(vec![
            ("error".to_string(), Json::Str("script_timeout".to_string())),
            ("limit_secs".to_string(), Json::Number("120".to_string())),
        ])
    );
}

#[test]
fn every_error_has_a_tag_and_a_message() {
    let cases = [
        (
            SandboxError::ScriptTimeout { limit_secs: 2 },
            "script_timeout",
            "script exceeded its 2s deadline",
        ),
        (
            SandboxError::MemoryExhausted { limit_mb: 64 },
            "memory_exhausted",
            "script exceeded its 64MB memory limit",
        ),
        (
            SandboxError::ScriptError {
                message: "boom".to_string(),
            },
            "script_error",
            "boom",
        ),
        (
            SandboxError::Internal {
                message: "no thread".to_string(),
            },
            "internal",
            "no thread",
        ),
    ];
    for (error, tag, message) in cases {
        assert_eq!(error.message(), message);
        let value = error.to_value();
        assert_eq!(value.get("error").and_then(|t| t.as_str()), Some(tag));
    }
}

#[test]
fn the_default_limits_are_generous() {
    let limits = Limits::default();
    assert_eq!(limits.timeout_ms, 120_000);
    assert_eq!(limits.memory_bytes, 64 << 20);
    assert_eq!(limits.stack_bytes, 1 << 20);
    assert_eq!(Sandbox::default().limits(), limits);
}

#[test]
fn a_thread_has_room_beyond_the_script() {
    let sandbox = Sandbox::default();
    assert_eq!(sandbox.thread_stack_bytes(), (1 << 20) + STACK_HEADROOM);
    assert_eq!(sandbox.outer_timeout_ms(), 120_000 + OUTER_GRACE_MS);
}

/// The deadline decides first, then the heap; only then is it the script's own
/// doing.
#[test]
fn the_cause_of_a_failure_is_recovered() {
    let limits = Limits {
        timeout_ms: 2_500,
        memory_bytes: 10 << 20,
        stack_bytes: 1 << 20,
    };
    let full = 10 << 20;
    assert_eq!(
        classify("null".to_string(), true, limits, full),
        SandboxError::ScriptTimeout { limit_secs: 2 }
    );
    assert_eq!(
        classify("null".to_string(), false, limits, 8 << 20),
        SandboxError::MemoryExhausted { limit_mb: 10 }
    );
    assert_eq!(
        classify("boom".to_string(), false, limits, (8 << 20) - 1),
        SandboxError::ScriptError {
            message: "boom".to_string()
        }
    );
    assert_eq!(
        classify("boom".to_string(), false, Limits { memory_bytes: usize::MAX, ..limits }, usize::MAX),
        SandboxError::MemoryExhausted { limit_mb: (usize::MAX >> 20) as u64 }
    );
}

#[test]
fn every_ending_is_concluded() {
    let sandbox = Sandbox::new(Limits {
        timeout_ms: 300,
        ..Limits::default()
    });
    let internal = |message: &str| {
        Err(SandboxError::Internal {
            message: message.to_string(),
        })
    };
    assert_eq!(
        sandbox.conclude(Ending::Value(Json::Bool(true))),
        Ok(Json::Bool(true))
    );
    assert_eq!(
        sandbox.conclude(Ending::Overdue),
        Err(SandboxError::ScriptTimeout { limit_secs: 0 })
    );
    assert_eq!(
        sandbox.conclude(Ending::Silent),
        internal("sandbox thread ended without reporting")
    );
    assert_eq!(
        sandbox.conclude(Ending::NoThread {
            cause: "limit".to_string()
        }),
        internal("could not start sandbox thread: limit")
    );
    assert_eq!(
        sandbox.conclude(Ending::NoRuntime {
            cause: "limit".to_string()
        }),
        internal("could not start sandbox runtime: limit")
    );
    assert_eq!(
        sandbox.conclude(Ending::NoEngine {
            cause: "oom".to_string()
        }),
        internal("oom")
    );
    assert_eq!(
        sandbox.conclude(Ending::Failed {
            message: "boom".to_string(),
            past_deadline: false,
            allocated: 0
        }),
        Err(SandboxError::ScriptError {
            message: "boom".to_string()
        })
    );
}

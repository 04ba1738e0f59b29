//! Error messages, their classification and the bridges between error types.

use bytemaker::error::{AgentError, LlmError};

#[test]
fn display_api_error() {
    let err = AgentError::Api {
        status: 429,
        body: "rate limited".into(),
    };
    assert_eq!(err.to_string(), "API error (HTTP 429): rate limited");
}

#[test]
fn display_timeout() {
    let err = AgentError::Timeout { seconds: 30 };
    assert_eq!(err.to_string(), "Operation timed out after 30s");
}

#[test]
fn display_stream_error() {
    let err = AgentError::Stream("bad JSON".into());
    assert_eq!(err.to_string(), "Stream error: bad JSON");
}

#[test]
fn display_other() {
    let err = AgentError::Other("something went wrong".into());
    assert_eq!(err.to_string(), "something went wrong");
}

#[test]
fn from_io_error() {
    let io_err = std::io::Error::new(std::io::ErrorKind::NotFound, "file missing");
    let err: AgentError = io_err.into();
    assert!(matches!(err, AgentError::FileSystem(_)));
    assert!(err.to_string().contains("file missing"));
}

#[test]
fn from_boxed_error() {
    let boxed: Box<dyn std::error::Error> = "generic failure".into();
    let err = AgentError::Other(boxed.to_string());
    assert!(matches!(err, AgentError::Other(_)));
    assert!(err.to_string().contains("generic failure"));
}

#[test]
fn is_prompt_too_long_api_variant() {
    let err = AgentError::Api {
        status: 400,
        body: "prompt_too_long: request exceeds maximum context".into(),
    };
    assert!(err.is_prompt_too_long());

    let err2 = AgentError::Api {
        status: 400,
        body: "too many tokens in request".into(),
    };
    assert!(err2.is_prompt_too_long());

    let err3 = AgentError::Api {
        status: 400,
        body: "request_too_large".into(),
    };
    assert!(err3.is_prompt_too_long());

    // Case insensitive
    let err4 = AgentError::Api {
        status: 400,
        body: "PROMPT_TOO_LONG".into(),
    };
    assert!(err4.is_prompt_too_long());
}

#[test]
fn is_prompt_too_long_openai_wording() {
    // OpenAI context-length error wording.
    let openai_variants = [
        "This model's maximum context length is 8192 tokens",
        "context_length_exceeded",
        "Please reduce the length of the messages.",
    ];
    for body in openai_variants {
        let err = AgentError::Api {
            status: 400,
            body: body.into(),
        };
        assert!(err.is_prompt_too_long(), "expected prompt-too-long for: {body}");
    }
}

#[test]
fn is_prompt_too_long_negative() {
    let err = AgentError::Api {
        status: 401,
        body: "unauthorized".into(),
    };
    assert!(!err.is_prompt_too_long());

    let err2 = AgentError::Stream("connection closed".into());
    assert!(!err2.is_prompt_too_long());

    let err3 = AgentError::Timeout { seconds: 30 };
    assert!(!err3.is_prompt_too_long());

    let err4 = AgentError::Other("some other error".into());
    assert!(!err4.is_prompt_too_long());
}

#[test]
fn llm_error_classifies_429_as_rate_limit() {
    assert!(matches!(
        LlmError::from_api_error(429, "rate limited"),
        LlmError::RateLimit(_)
    ));
}

#[test]
fn llm_error_classifies_401_403_as_auth() {
    assert!(matches!(LlmError::from_api_error(401, "no key"), LlmError::AuthError(_)));
    assert!(matches!(LlmError::from_api_error(403, "forbidden"), LlmError::AuthError(_)));
}

#[test]
fn llm_error_classifies_prompt_too_long_body() {
    for body in ["prompt_too_long", "too many tokens", "context_length_exceeded"] {
        assert!(
            matches!(LlmError::from_api_error(400, body), LlmError::PromptTooLong(_)),
            "expected PromptTooLong for: {body}"
        );
    }
}

#[test]
fn llm_error_classifies_other_status_as_other() {
    assert!(matches!(LlmError::from_api_error(500, "boom"), LlmError::Other(_)));
}

#[test]
fn llm_error_is_prompt_too_long_variant_check() {
    assert!(LlmError::PromptTooLong("x".into()).is_prompt_too_long());
    assert!(!LlmError::RateLimit("x".into()).is_prompt_too_long());
    assert!(!LlmError::Other("x".into()).is_prompt_too_long());
}

#[test]
fn from_llm_error_to_agent_error_bridge() {
    // Bridge maps each LlmError variant to the corresponding AgentError shape.
    assert!(matches!(
        AgentError::from(LlmError::RateLimit("rl".into())),
        AgentError::Api { status: 429, .. }
    ));
    assert!(matches!(
        AgentError::from(LlmError::AuthError("au".into())),
        AgentError::Api { status: 401, .. }
    ));
    assert!(matches!(
        AgentError::from(LlmError::PromptTooLong("pl".into())),
        AgentError::Api { status: 400, .. }
    ));
    assert!(matches!(
        AgentError::from(LlmError::Network("n".into())),
        AgentError::Network(_)
    ));
}

#[test]
fn from_json_error() {
    let json_err = serde_json::from_str::<serde_json::Value>("{").unwrap_err();
    let text = json_err.to_string();
    let err: AgentError = json_err.into();
    assert_eq!(err, AgentError::Validation(format!("JSON error: {text}")));
}

#[test]
fn every_agent_error_has_its_message() {
    let cases = vec![
        (AgentError::Network("down".into()), "Network error: down"),
        (AgentError::InvalidResponse("x".into()), "Invalid response: x"),
        (
            AgentError::ToolNotFound { name: "t".into(), available: "a, b".into() },
            "Tool 't' not found. Available tools: a, b",
        ),
        (
            AgentError::ToolRejected { name: "t".into(), reason: "no".into() },
            "Tool 't' rejected: no",
        ),
        (AgentError::ToolDenied { name: "t".into(), reason: "no".into() }, "Tool 't' denied: no"),
        (
            AgentError::ToolExecution { name: "t".into(), reason: "no".into() },
            "Tool 't' execution failed: no",
        ),
        (AgentError::PathTraversal { path: "../x".into() }, "Path '../x' escapes workspace"),
        (AgentError::FileSystem("gone".into()), "File system error: gone"),
    ];
    for (e, text) in cases {
        assert_eq!(e.to_string(), text);
    }
}

#[test]
fn every_llm_error_is_bridged() {
    assert_eq!(
        AgentError::from(LlmError::Stream("s".into())),
        AgentError::Stream("s".into())
    );
    assert_eq!(
        AgentError::from(LlmError::Timeout { seconds: 7 }),
        AgentError::Timeout { seconds: 7 }
    );
    assert_eq!(
        AgentError::from(LlmError::InvalidResponse("i".into())),
        AgentError::InvalidResponse("i".into())
    );
    assert_eq!(AgentError::from(LlmError::Other("o".into())), AgentError::Other("o".into()));
    assert_eq!(LlmError::RateLimit("slow down".into()).to_string(), "Rate limited: slow down");
    assert_eq!(LlmError::AuthError("no key".into()).to_string(), "Auth error: no key");
}

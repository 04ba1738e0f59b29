//! Error types: `AgentError` across the agent, `LlmError` at the provider boundary.

use vstd::prelude::*;
use vstd::string::to_string_from_display_ensures;

use crate::text::{concat2, concat3, contains, decimal, decimal_u64, lowercase, owned, str_contains};

verus! {

broadcast use vstd::string::group_string_axioms;

/// Unified error type for the agent.
#[derive(Debug, Clone, PartialEq)]
pub enum AgentError {
    /// HTTP error from the LLM API (non-2xx response).
    Api { status: u16, body: String },
    /// Network / transport error.
    Network(String),
    /// Stream-level error.
    Stream(String),
    /// Operation timed out.
    Timeout { seconds: u64 },
    /// Invalid / malformed response.
    InvalidResponse(String),
    /// Tool was not found in the registry.
    ToolNotFound { name: String, available: String },
    /// Tool was rejected (e.g., in subagent context).
    ToolRejected { name: String, reason: String },
    /// Tool execution was denied by a pre-tool hook.
    ToolDenied { name: String, reason: String },
    /// Tool execution failed with a specific error message.
    ToolExecution { name: String, reason: String },
    /// Path attempt to escape the workspace.
    PathTraversal { path: String },
    /// File system related error.
    FileSystem(String),
    /// Input validation failed.
    Validation(String),
    /// Catch-all.
    Other(String),
}

/// The message of an [`AgentError`].
pub open spec fn agent_error_text(e: AgentError) -> Seq<char> {
    match e {
        AgentError::Api { status, body } => "API error (HTTP "@ + decimal(status as nat) + "): "@
            + body@,
        AgentError::Network(m) => "Network error: "@ + m@,
        AgentError::Stream(m) => "Stream error: "@ + m@,
        AgentError::Timeout { seconds } => "Operation timed out after "@ + decimal(seconds as nat)
            + "s"@,
        AgentError::InvalidResponse(m) => "Invalid response: "@ + m@,
        AgentError::ToolNotFound { name, available } => "Tool '"@ + name@
            + "' not found. Available tools: "@ + available@,
        AgentError::ToolRejected { name, reason } => "Tool '"@ + name@ + "' rejected: "@ + reason@,
        AgentError::ToolDenied { name, reason } => "Tool '"@ + name@ + "' denied: "@ + reason@,
        AgentError::ToolExecution { name, reason } => "Tool '"@ + name@ + "' execution failed: "@
            + reason@,
        AgentError::PathTraversal { path } => "Path '"@ + path@ + "' escapes workspace"@,
        AgentError::FileSystem(m) => "File system error: "@ + m@,
        AgentError::Validation(m) => "Validation error: "@ + m@,
        AgentError::Other(m) => m@,
    }
}

/// The text names a prompt that the model's context cannot hold.
pub open spec fn says_too_long(lower: Seq<char>) -> bool {
    ||| contains(lower, "prompt_too_long"@)
    ||| contains(lower, "too many tokens"@)
    ||| contains(lower, "request_too_large"@)
    ||| contains(lower, "context_length_exceeded"@)
    ||| contains(lower, "maximum context length"@)
    ||| contains(lower, "reduce the length of the messages"@)
}

fn names_too_long(body: &str) -> (r: bool)
    ensures
        r == says_too_long(lowercase(body@)),
{
    let lower = body.to_lowercase();
    let l = lower.as_str();
    str_contains(l, "prompt_too_long") || str_contains(l, "too many tokens") || str_contains(
        l,
        "request_too_large",
    ) || str_contains(l, "context_length_exceeded") || str_contains(l, "maximum context length")
        || str_contains(l, "reduce the length of the messages")
}


impl AgentError {
    /// The error's message.
    pub fn to_string(&self) -> (r: String)
        ensures
            r@ == agent_error_text(*self),
    {
        match self {
            AgentError::Api { status, body } => {
                let mut out = owned("API error (HTTP ");
                out.append(decimal_u64(*status as u64).as_str());
                out.append("): ");
                out.append(body.as_str());
                out
            },
            AgentError::Network(m) => concat2("Network error: ", m.as_str()),
            AgentError::Stream(m) => concat2("Stream error: ", m.as_str()),
            AgentError::Timeout { seconds } => concat3(
                "Operation timed out after ",
                decimal_u64(*seconds).as_str(),
                "s",
            ),
            AgentError::InvalidResponse(m) => concat2("Invalid response: ", m.as_str()),
            AgentError::ToolNotFound { name, available } => {
                let mut out = concat2("Tool '", name.as_str());
                out.append("' not found. Available tools: ");
                out.append(available.as_str());
                out
            },
            AgentError::ToolRejected { name, reason } => {
                let mut out = concat2("Tool '", name.as_str());
                out.append("' rejected: ");
                out.append(reason.as_str());
                out
            },
            AgentError::ToolDenied { name, reason } => {
                let mut out = concat2("Tool '", name.as_str());
                out.append("' denied: ");
                out.append(reason.as_str());
                out
            },
            AgentError::ToolExecution { name, reason } => {
                let mut out = concat2("Tool '", name.as_str());
                out.append("' execution failed: ");
                out.append(reason.as_str());
                out
            },
            AgentError::PathTraversal { path } => concat3(
                "Path '",
                path.as_str(),
                "' escapes workspace",
            ),
            AgentError::FileSystem(m) => concat2("File system error: ", m.as_str()),
            AgentError::Validation(m) => concat2("Validation error: ", m.as_str()),
            AgentError::Other(m) => m.clone(),
        }
    }

    /// Whether this error says that the prompt was too long for the model's context.
    ///
    /// Only errors that carry a provider's own words are looked at.
    pub fn is_prompt_too_long(&self) -> (r: bool)
        ensures
            r == match *self {
                AgentError::Api { body, .. } => says_too_long(lowercase(body@)),
                AgentError::Stream(m) => says_too_long(lowercase(m@)),
                AgentError::Other(m) => says_too_long(lowercase(m@)),
                _ => false,
            },
    {
        match self {
            AgentError::Api { body, .. } => names_too_long(body.as_str()),
            AgentError::Stream(m) => names_too_long(m.as_str()),
            AgentError::Other(m) => names_too_long(m.as_str()),
            _ => false,
        }
    }
}

#[verifier::external_type_specification]
#[verifier::external_body]
pub struct ExIoError(std::io::Error);

#[verifier::external_type_specification]
#[verifier::external_body]
pub struct ExJsonError(serde_json::Error);

impl From<std::io::Error> for AgentError {
    fn from(e: std::io::Error) -> (r: Self)
        ensures
            r matches AgentError::FileSystem(m) && to_string_from_display_ensures(&e, m),
    {
        AgentError::FileSystem(e.to_string())
    }
}

impl vstd::std_specs::convert::FromSpecImpl<std::io::Error> for AgentError {
    open spec fn obeys_from_spec() -> bool {
        false
    }

    open spec fn from_spec(e: std::io::Error) -> Self {
        arbitrary()
    }
}

impl From<serde_json::Error> for AgentError {
    fn from(e: serde_json::Error) -> (r: Self)
        ensures
            r matches AgentError::Validation(m) && exists|t: String|
                to_string_from_display_ensures(&e, t) && m@ == "JSON error: "@ + t@,
    {
        let t = e.to_string();
        let m = concat2("JSON error: ", t.as_str());
        AgentError::Validation(m)
    }
}

impl vstd::std_specs::convert::FromSpecImpl<serde_json::Error> for AgentError {
    open spec fn obeys_from_spec() -> bool {
        false
    }

    open spec fn from_spec(e: serde_json::Error) -> Self {
        arbitrary()
    }
}

/// Error of the LLM provider layer.
#[derive(Debug, Clone, PartialEq)]
pub enum LlmError {
    AuthError(String),
    RateLimit(String),
    Network(String),
    Timeout { seconds: u64 },
    Stream(String),
    InvalidResponse(String),
    PromptTooLong(String),
    Other(String),
}

/// The message of an [`LlmError`].
pub open spec fn llm_error_text(e: LlmError) -> Seq<char> {
    match e {
        LlmError::AuthError(m) => "Auth error: "@ + m@,
        LlmError::RateLimit(m) => "Rate limited: "@ + m@,
        LlmError::Network(m) => "Network error: "@ + m@,
        LlmError::Timeout { seconds } => "Timeout after "@ + decimal(seconds as nat) + "s"@,
        LlmError::Stream(m) => "Stream error: "@ + m@,
        LlmError::InvalidResponse(m) => "Invalid response: "@ + m@,
        LlmError::PromptTooLong(m) => "Prompt too long: "@ + m@,
        LlmError::Other(m) => m@,
    }
}

impl LlmError {
    /// The error's message.
    pub fn to_string(&self) -> (r: String)
        ensures
            r@ == llm_error_text(*self),
    {
        match self {
            LlmError::AuthError(m) => concat2("Auth error: ", m.as_str()),
            LlmError::RateLimit(m) => concat2("Rate limited: ", m.as_str()),
            LlmError::Network(m) => concat2("Network error: ", m.as_str()),
            LlmError::Timeout { seconds } => concat3(
                "Timeout after ",
                decimal_u64(*seconds).as_str(),
                "s",
            ),
            LlmError::Stream(m) => concat2("Stream error: ", m.as_str()),
            LlmError::InvalidResponse(m) => concat2("Invalid response: ", m.as_str()),
            LlmError::PromptTooLong(m) => concat2("Prompt too long: ", m.as_str()),
            LlmError::Other(m) => m.clone(),
        }
    }

    /// Classify an HTTP error by status and body: 429 is a rate limit, 401 and 403 are
    /// authentication errors, 400 and 413 are too long where the body says so, anything else is
    /// `Other`.
    pub fn from_api_error(status: u16, body: &str) -> (r: Self)
        ensures
            if status == 429 {
                r matches LlmError::RateLimit(m) && m@ == body@
            } else if status == 401 || status == 403 {
                r matches LlmError::AuthError(m) && m@ == body@
            } else if (status == 400 || status == 413) && says_too_long(lowercase(body@)) {
                r matches LlmError::PromptTooLong(m) && m@ == body@
            } else {
                r matches LlmError::Other(m) && m@ == "HTTP "@ + decimal(status as nat) + ": "@
                    + body@
            },
            body@.is_suffix_of(llm_error_text(r)),
            r is RateLimit <==> status == 429,
            r is AuthError <==> status == 401 || status == 403,
            r is PromptTooLong ==> status == 400 || status == 413,
    {
        proof {
            let a = "Rate limited: "@ + body@;
            let b = "Auth error: "@ + body@;
            let c = "Prompt too long: "@ + body@;
            let d = "HTTP "@ + decimal(status as nat) + ": "@ + body@;
            assert(a.subrange(a.len() - body@.len(), a.len() as int) =~= body@);
            assert(b.subrange(b.len() - body@.len(), b.len() as int) =~= body@);
            assert(c.subrange(c.len() - body@.len(), c.len() as int) =~= body@);
            assert(d.subrange(d.len() - body@.len(), d.len() as int) =~= body@);
        }
        let too_long = names_too_long(body);
        if status == 429 {
            LlmError::RateLimit(owned(body))
        } else if status == 401 || status == 403 {
            LlmError::AuthError(owned(body))
        } else if (status == 400 || status == 413) && too_long {
            LlmError::PromptTooLong(owned(body))
        } else {
            let mut m = concat2("HTTP ", decimal_u64(status as u64).as_str());
            m.append(": ");
            m.append(body);
            LlmError::Other(m)
        }
    }

    /// Whether the prompt was too long: a look at the variant alone.
    pub fn is_prompt_too_long(&self) -> (r: bool)
        ensures
            r == (*self is PromptTooLong),
    {
        matches!(self, LlmError::PromptTooLong(_))
    }
}

/// How a provider error appears above the provider layer.
pub open spec fn bridged(e: LlmError) -> AgentError {
    match e {
        LlmError::AuthError(m) => AgentError::Api { status: 401, body: m },
        LlmError::RateLimit(m) => AgentError::Api { status: 429, body: m },
        LlmError::Network(m) => AgentError::Network(m),
        LlmError::Stream(m) => AgentError::Stream(m),
        LlmError::Timeout { seconds } => AgentError::Timeout { seconds },
        LlmError::InvalidResponse(m) => AgentError::InvalidResponse(m),
        LlmError::PromptTooLong(m) => AgentError::Api { status: 400, body: m },
        LlmError::Other(m) => AgentError::Other(m),
    }
}

impl From<LlmError> for AgentError {
    fn from(e: LlmError) -> (r: Self) {
        match e {
            LlmError::AuthError(m) => AgentError::Api { status: 401, body: m },
            LlmError::RateLimit(m) => AgentError::Api { status: 429, body: m },
            LlmError::Network(m) => AgentError::Network(m),
            LlmError::Stream(m) => AgentError::Stream(m),
            LlmError::Timeout { seconds } => AgentError::Timeout { seconds },
            LlmError::InvalidResponse(m) => AgentError::InvalidResponse(m),
            LlmError::PromptTooLong(m) => AgentError::Api { status: 400, body: m },
            LlmError::Other(m) => AgentError::Other(m),
        }
    }
}

impl vstd::std_specs::convert::FromSpecImpl<LlmError> for AgentError {
    open spec fn obeys_from_spec() -> bool {
        true
    }

    open spec fn from_spec(e: LlmError) -> Self {
        bridged(e)
    }
}

} // verus!

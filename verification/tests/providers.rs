//! What a model call gives back, and the provider that answers with a fixed text.

use bytemaker::domain::message::MessagesResponse;
use bytemaker::error::{AgentError, LlmError};
use bytemaker::providers::{CallResult, MockProvider};

#[test]
fn mock_provider_generate_completion_returns_hardcoded() {
    let provider = MockProvider::new("hello from mock");
    let resp = provider.generate_completion().expect("mock generate_completion");
    assert_eq!(resp.content, "hello from mock");
}

#[test]
fn mock_provider_stream_returns_success() {
    let provider = MockProvider::new("hi");
    assert!(matches!(provider.stream_messages(), CallResult::Success(_)));
}

#[test]
fn call_result_is_prompt_too_long_variant() {
    let e = LlmError::PromptTooLong("x".into());
    assert!(CallResult::PromptTooLong(e).is_prompt_too_long());
    let r = MessagesResponse { content: vec![], finish_reason: "stop".into(), usage: None };
    assert!(!CallResult::Success(r).is_prompt_too_long());
}

#[test]
fn call_result_into_response_bridges_to_agent_error() {
    let err = CallResult::Failure(LlmError::RateLimit("rl".into())).into_response().unwrap_err();
    assert!(matches!(err, AgentError::Api { status: 429, .. }));
}

//! Requests to a chat completion service, and responses that arrive in chunks.

use bytemaker::domain::message::{ContentBlock, Message};
use bytemaker::error::LlmError;
use bytemaker::json::{json_str, Json};
use bytemaker::providers::openai::{
    api_base, classify_error, format_response_for_log, to_openai_messages, CallDelta, ChoiceDelta,
    FinishReason, OpenAiMessage, StreamAccumulator, StreamChunk, StreamEvent, StreamStep,
};
use bytemaker::providers::CallResult;

fn text_chunk(text: Option<&str>, finish: Option<FinishReason>) -> StreamChunk {
    StreamChunk {
        usage: None,
        choices: vec![ChoiceDelta {
            content: text.map(|t| t.to_string()),
            tool_calls: vec![],
            finish_reason: finish,
        }],
    }
}

fn call_chunk(index: u32, id: Option<&str>, name: Option<&str>, arguments: &str) -> StreamChunk {
    StreamChunk {
        usage: None,
        choices: vec![ChoiceDelta {
            content: None,
            tool_calls: vec![CallDelta {
                index,
                id: id.map(|t| t.to_string()),
                name: name.map(|t| t.to_string()),
                arguments: Some(arguments.to_string()),
            }],
            finish_reason: None,
        }],
    }
}

#[test]
fn stream_messages_returns_failure_when_stream_ends_without_terminal_chunk() {
    let mut acc = StreamAccumulator::new();
    acc.add_chunk(&text_chunk(Some("hi"), None));
    let r = acc.finish();
    assert!(matches!(r, CallResult::Failure(_)), "expected Failure on truncated stream, got {:?}", r);
}

#[test]
fn a_complete_stream_gives_one_text_block_and_the_usage() {
    let mut acc = StreamAccumulator::new();
    acc.add_chunk(&text_chunk(Some("o"), None));
    acc.add_chunk(&text_chunk(Some("k"), None));
    acc.add_chunk(&text_chunk(None, Some(FinishReason::Stop)));
    acc.add_chunk(&StreamChunk { usage: Some((3, 2)), choices: vec![] });
    match acc.finish() {
        CallResult::Success(r) => {
            assert_eq!(r.finish_reason, "stop");
            assert_eq!(r.content.len(), 1);
            match &r.content[0] {
                ContentBlock::Text { text } => assert_eq!(text, "ok"),
                _ => panic!("expected a text block"),
            }
            let usage = r.usage.unwrap();
            assert_eq!((usage.input_tokens, usage.output_tokens), (3, 2));
        }
        other => panic!("expected Success, got {:?}", other),
    }
}

#[test]
fn a_number_that_is_read_is_printed_as_it_was() {
    for number in ["2.638344616030823e-256", "0.1", "1e300", "31.245270191439438"] {
        let mut acc = StreamAccumulator::new();
        let input = format!("{{\"x\":{number}}}");
        acc.add_chunk(&call_chunk(0, Some("c1"), Some("f"), &input));
        acc.add_chunk(&text_chunk(None, Some(FinishReason::ToolCalls)));
        match acc.finish() {
            CallResult::Success(r) => {
                let value: serde_json::Value = serde_json::from_str(&input).unwrap();
                let log = format_response_for_log(&r.content);
                assert!(log.ends_with(&value.to_string()), "got: {log}");
            }
            other => panic!("expected Success, got {:?}", other),
        }
    }
}

#[test]
fn a_stream_that_ends_with_the_usage_alone_is_complete() {
    let mut acc = StreamAccumulator::new();
    acc.add_chunk(&text_chunk(Some("ok"), None));
    acc.add_chunk(&StreamChunk { usage: Some((3, 2)), choices: vec![] });
    match acc.step(StreamEvent::Ended) {
        StreamStep::Done(CallResult::Success(r)) => {
            assert_eq!(r.finish_reason, "unknown");
            assert_eq!(r.content.len(), 1);
            match &r.content[0] {
                ContentBlock::Text { text } => assert_eq!(text, "ok"),
                _ => panic!("expected a text block"),
            }
            let usage = r.usage.unwrap();
            assert_eq!((usage.input_tokens, usage.output_tokens), (3, 2));
        }
        other => panic!("expected a success, got {:?}", other),
    }
}

#[test]
fn tool_calls_are_gathered_by_their_index() {
    let mut acc = StreamAccumulator::new();
    acc.add_chunk(&call_chunk(1, Some("b"), Some("second"), "{}"));
    acc.add_chunk(&call_chunk(0, Some("a"), Some("first"), "{\"path\":"));
    acc.add_chunk(&call_chunk(0, None, None, "\"x\"}"));
    acc.add_chunk(&text_chunk(None, Some(FinishReason::ToolCalls)));
    match acc.finish() {
        CallResult::Success(r) => {
            assert_eq!(r.finish_reason, "tool_call");
            let mut calls = Vec::new();
            for b in &r.content {
                if let ContentBlock::ToolCall { id, name, input } = b {
                    calls.push((id.as_str(), name.as_str(), input));
                }
            }
            assert_eq!(calls.len(), 2);
            assert_eq!((calls[0].0, calls[0].1), ("a", "first"));
            assert_eq!(calls[0].2.str_field("path"), Some("x"));
            assert_eq!((calls[1].0, calls[1].1), ("b", "second"));
        }
        other => panic!("expected Success, got {:?}", other),
    }
}

#[test]
fn a_conversation_is_turned_into_requests_of_the_service() {
    let messages = vec![
        Message::user_text("hi"),
        Message::builder()
            .assistant()
            .text("let me look")
            .tool_call("c1", "read_file", Json::Object(vec![("path".to_string(), json_str("a"))]))
            .build(),
        Message::user_tool_output("c1", "contents"),
    ];
    let wire = to_openai_messages("sys", &messages);
    assert!(matches!(&wire[0], OpenAiMessage::System { content } if content == "sys"));
    assert!(matches!(&wire[1], OpenAiMessage::User { content } if content == "hi"));
    match &wire[2] {
        OpenAiMessage::Assistant { content, tool_calls } => {
            assert_eq!(content.as_deref(), Some("let me look"));
            let calls = tool_calls.as_ref().unwrap();
            assert_eq!(calls.len(), 1);
            assert_eq!(calls[0].id, "c1");
            assert_eq!(calls[0].arguments, "{\"path\":\"a\"}");
        }
        other => panic!("expected an assistant message, got {:?}", other),
    }
    assert!(
        matches!(&wire[3], OpenAiMessage::Tool { content, tool_call_id } if content == "contents" && tool_call_id == "c1")
    );
}

#[test]
fn slashes_behind_the_base_of_the_service_are_dropped() {
    assert_eq!(api_base("https://api.example.com/v1//"), "https://api.example.com/v1");
    assert_eq!(api_base("https://api.example.com/v1"), "https://api.example.com/v1");
}

#[test]
fn a_prompt_that_is_too_long_is_told_apart() {
    assert!(classify_error(LlmError::PromptTooLong("x".into())).is_prompt_too_long());
    assert!(matches!(classify_error(LlmError::RateLimit("x".into())), CallResult::Failure(_)));
}

#[test]
fn a_response_is_logged_with_its_blocks() {
    let log = format_response_for_log(&[ContentBlock::text("the answer")]);
    assert!(log.contains("the answer"));
}

fn ended_by(event: StreamEvent) -> CallResult {
    match StreamAccumulator::new().step(event) {
        StreamStep::Done(r) => r,
        StreamStep::Waiting(_) => panic!("expected an end"),
    }
}

#[test]
fn a_call_that_is_too_slow_fails() {
    match ended_by(StreamEvent::OpenTimedOut { limit: "120s".to_string() }) {
        CallResult::Failure(LlmError::Stream(m)) => {
            assert_eq!(m, "request timed out after 120s (connect+headers)");
        }
        other => panic!("expected a failure, got {:?}", other),
    }
    match ended_by(StreamEvent::IdleTimedOut { limit: "60s".to_string() }) {
        CallResult::Failure(LlmError::Stream(m)) => {
            assert_eq!(m, "stream idle timeout: no chunk within 60s");
        }
        other => panic!("expected a failure, got {:?}", other),
    }
}

#[test]
fn errors_and_interruptions_end_the_call() {
    assert!(matches!(ended_by(StreamEvent::Interrupted), CallResult::Cancelled));
    let long = StreamEvent::OpenFailed(LlmError::PromptTooLong("x".to_string()));
    assert!(matches!(ended_by(long), CallResult::PromptTooLong(_)));
    let broken = StreamEvent::ChunkFailed(LlmError::Network("down".to_string()));
    assert!(matches!(ended_by(broken), CallResult::Failure(LlmError::Network(_))));
    assert!(matches!(ended_by(StreamEvent::Ended), CallResult::Failure(LlmError::Stream(_))));
}

#[test]
fn chunks_are_gathered_until_the_stream_ends() {
    let mut acc = StreamAccumulator::new();
    let chunks = vec![text_chunk(Some("ok"), None), text_chunk(None, Some(FinishReason::Stop))];
    for chunk in chunks {
        acc = match acc.step(StreamEvent::Chunk(chunk)) {
            StreamStep::Waiting(a) => a,
            StreamStep::Done(r) => panic!("ended early: {:?}", r),
        };
    }
    match acc.step(StreamEvent::Ended) {
        StreamStep::Done(CallResult::Success(r)) => assert_eq!(r.finish_reason, "stop"),
        other => panic!("expected a success, got {:?}", other),
    }
}

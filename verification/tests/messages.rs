//! Messages, responses and their JSON text.

use bytemaker::domain::message::{
    messages_to_wire, response_text, CompletionResponse, ContentBlock, Message, Role,
};
use bytemaker::json::{json_str, Json};

#[test]
fn completion_response_construct() {
    let r = CompletionResponse { content: "hi".into(), prompt_tokens: 3, completion_tokens: 2 };
    assert_eq!(r.content, "hi");
    assert_eq!((r.prompt_tokens, r.completion_tokens), (3, 2));
}

#[test]
fn message_user_text_roundtrip() {
    let m = Message::user_text("hello");
    assert_eq!(m.role, Role::User);
    assert_eq!(m.content.len(), 1);
    assert!(matches!(m.content[0], ContentBlock::Text { .. }));
}

#[test]
fn role_serializes_to_lowercase_wire_string() {
    assert_eq!(Role::User.as_str(), "user");
    assert_eq!(Role::Assistant.as_str(), "assistant");
    assert_eq!(Role::System.as_str(), "system");
}

#[test]
fn message_role_roundtrips_wire_format() {
    let m = Message::user_text("hi");
    let json = m.to_wire();
    assert_eq!(json, r#"{"role":"user","content":[{"type":"text","text":"hi"}]}"#);
    let back: serde_json::Value = serde_json::from_str(&json).unwrap();
    assert_eq!(back["role"], "user");
    assert_eq!(back["content"].as_array().unwrap().len(), 1);
}

#[test]
fn a_tool_call_and_its_output_have_their_json_text() {
    let m = Message::builder()
        .assistant()
        .tool_call("c1", "read_file", Json::Object(vec![("path".to_string(), json_str("a\"b"))]))
        .tool_output("c1", "line\n")
        .build();
    assert_eq!(
        m.to_wire(),
        r#"{"role":"assistant","content":[{"type":"tool_call","id":"c1","name":"read_file","input":{"path":"a\"b"}},{"type":"tool_output","call_id":"c1","content":"line\n"}]}"#
    );
    let list = messages_to_wire(&[Message::user_text("x"), m]);
    let back: serde_json::Value = serde_json::from_str(&list).unwrap();
    assert_eq!(back[1]["content"][0]["input"]["path"], "a\"b");
}

#[test]
fn a_response_is_read_as_its_text_blocks() {
    let blocks = vec![
        ContentBlock::text("one"),
        ContentBlock::tool_output("c", "no"),
        ContentBlock::text("two"),
    ];
    let text = response_text(&blocks);
    assert!(text.contains("one") && text.contains("two") && !text.contains("no"));
}

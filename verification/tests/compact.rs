//! Keeping a conversation within what a model can take.

use bytemaker::compact::{
    persisted_file, ContextCompactor, Preparation, LARGE_RESULT_CHAR_LIMIT, SNIP_HEAD,
    SNIP_MAX_MESSAGES, SUMMARY_INPUT_CHAR_LIMIT,
};
use bytemaker::domain::message::{ContentBlock, Message, Role};
use bytemaker::json::Json;

fn convert(v: serde_json::Value) -> Json {
    match v {
        serde_json::Value::Null => Json::Null,
        serde_json::Value::Bool(b) => Json::Bool(b),
        serde_json::Value::Number(n) => match (n.as_i64(), n.as_u64()) {
            (Some(i), _) => Json::Int(i),
            (None, Some(u)) => Json::UInt(u),
            (None, None) => Json::Real(n.to_string()),
        },
        serde_json::Value::String(s) => Json::Text(s),
        serde_json::Value::Array(a) => Json::Array(a.into_iter().map(convert).collect()),
        serde_json::Value::Object(o) => {
            Json::Object(o.into_iter().map(|(k, v)| (k, convert(v))).collect())
        }
    }
}

fn json(text: &str) -> Json {
    convert(serde_json::from_str(text).expect("valid JSON"))
}

fn user_text(s: &str) -> Message {
    Message::user_text(s)
}

fn assistant_tool_call(id: &str) -> Message {
    Message::builder().assistant().tool_call(id, "command", json(r#"{"command": "ls"}"#)).build()
}

fn user_tool_output(id: &str, content: &str) -> Message {
    Message::builder().user().tool_output(id, content).build()
}

fn compactor() -> ContextCompactor {
    ContextCompactor::new("/work/t".to_string(), "/work/tr".to_string())
}

fn output_of(b: &ContentBlock) -> &str {
    match b {
        ContentBlock::ToolOutput { content, .. } => content,
        _ => panic!("expected tool_output"),
    }
}

fn text_of(b: &ContentBlock) -> &str {
    match b {
        ContentBlock::Text { text } => text,
        _ => panic!("expected text block"),
    }
}

#[test]
fn estimate_chars_grows_with_content() {
    let empty: Vec<Message> = vec![];
    assert!(ContextCompactor::estimate_chars(&empty) <= 2);
    let one = vec![user_text("hi")];
    let two = vec![user_text("hi"), user_text("there")];
    assert!(ContextCompactor::estimate_chars(&one) > 0);
    assert!(ContextCompactor::estimate_chars(&two) > ContextCompactor::estimate_chars(&one));
}

#[test]
fn has_tool_call_only_for_assistant_with_tool_call() {
    assert!(ContextCompactor::has_tool_call(&assistant_tool_call("t1")));
    assert!(!ContextCompactor::has_tool_call(&user_text("hello")));
    let text_only = Message::assistant_content(vec![ContentBlock::Text { text: "done".into() }]);
    assert!(!ContextCompactor::has_tool_call(&text_only));
}

#[test]
fn is_tool_output_only_for_user_with_tool_output() {
    assert!(ContextCompactor::is_tool_output(&user_tool_output("t1", "out")));
    assert!(!ContextCompactor::is_tool_output(&user_text("hello")));
    assert!(!ContextCompactor::is_tool_output(&assistant_tool_call("t1")));
}

#[test]
fn write_transcript_creates_jsonl_one_line_per_message() {
    let msgs = vec![user_text("a"), user_text("b")];
    let content = ContextCompactor::transcript_text(&msgs);
    let lines: Vec<&str> = content.lines().collect();
    assert_eq!(lines.len(), 2);
    assert!(lines[0].contains("\"role\":\"user\""));
    assert!(compactor().transcript_path().ends_with(".jsonl"));
}

#[test]
fn persist_large_output_passes_through_small() {
    let small = "x".repeat(100);
    assert_eq!(compactor().persist_large_output("t1", &small, true), small);
}

#[test]
fn persist_large_output_writes_file_and_returns_preview() {
    let big = "A".repeat(LARGE_RESULT_CHAR_LIMIT + 1000);
    let wrapped = compactor().persist_large_output("toolu_01", &big, true);
    assert!(wrapped.contains("<persisted-output>"));
    assert!(wrapped.contains("Full output:"));
    assert!(wrapped.contains("toolu_01.txt"));
    assert!(wrapped.contains(&"A".repeat(2000)));
    assert!(!wrapped.contains(&"A".repeat(2001)));
}

#[test]
fn persist_large_output_sanitizes_id() {
    assert_eq!(persisted_file("bad/id?:id"), "bad_id__id.txt");
    let big = "B".repeat(LARGE_RESULT_CHAR_LIMIT + 10);
    assert!(compactor().persist_large_output("bad/id?:id", &big, true).contains("bad_id__id.txt"));
}

#[test]
fn tool_output_budget_no_op_under_limit() {
    let mut msgs = vec![user_tool_output("t1", "small output")];
    let files = compactor().tool_output_budget(&mut msgs, true);
    assert!(files.is_empty());
    assert_eq!(output_of(&msgs[0].content[0]), "small output");
}

#[test]
fn tool_output_budget_persists_largest_over_limit() {
    let big = "Z".repeat(120_000);
    let medium = "Y".repeat(100_000);
    let mut msgs = vec![Message::builder()
        .user()
        .tool_output("big1", &big)
        .tool_output("medium1", &medium)
        .tool_output("small1", "tiny")
        .build()];
    let files = compactor().tool_output_budget(&mut msgs, true);
    assert!(
        output_of(&msgs[0].content[0]).contains("<persisted-output>"),
        "big block should be persisted"
    );
    assert_eq!(output_of(&msgs[0].content[1]), medium);
    assert_eq!(output_of(&msgs[0].content[2]), "tiny");
    assert_eq!(files.len(), 1);
    assert_eq!(files[0].file_name, "big1.txt");
    assert_eq!(files[0].content, big);
}

#[test]
fn tool_output_budget_skips_blocks_under_large_limit_even_if_total_over() {
    let mut blocks = Vec::new();
    for i in 0..10 {
        blocks.push(ContentBlock::tool_output(&format!("m{}", i), &"x".repeat(20_000)));
    }
    let mut msgs = vec![Message::user_blocks(blocks)];
    let files = compactor().tool_output_budget(&mut msgs, true);
    for b in &msgs[0].content {
        assert_eq!(output_of(b).len(), 20_000);
    }
    assert!(files.is_empty());
}

#[test]
fn micro_compact_keeps_recent_three_and_replaces_older() {
    let mut msgs: Vec<Message> =
        (0..5).map(|i| user_tool_output(&format!("t{}", i), &"y".repeat(200))).collect();
    ContextCompactor::micro_compact(&mut msgs);
    for i in 2..5 {
        assert_eq!(output_of(&msgs[i].content[0]).len(), 200);
    }
    for i in 0..2 {
        assert_eq!(output_of(&msgs[i].content[0]), "[Earlier tool result omitted.]");
    }
}

#[test]
fn an_old_output_is_measured_in_characters() {
    let short = "字".repeat(60);
    let limit = "字".repeat(120);
    let long = "字".repeat(121);
    let mut msgs = vec![
        user_tool_output("t0", &short),
        user_tool_output("t1", &limit),
        user_tool_output("t2", &long),
        user_tool_output("t3", "a"),
        user_tool_output("t4", "b"),
        user_tool_output("t5", "c"),
    ];
    ContextCompactor::micro_compact(&mut msgs);
    assert_eq!(output_of(&msgs[0].content[0]), short);
    assert_eq!(output_of(&msgs[1].content[0]), limit);
    assert_eq!(output_of(&msgs[2].content[0]), "[Earlier tool result omitted.]");
}

#[test]
fn micro_compact_preserves_persisted_path() {
    let persisted = format!(
        "<persisted-output>\nFull output: /tmp/old.txt\nPreview:\n{}\n</persisted-output>",
        "p".repeat(200)
    );
    let mut msgs = vec![
        user_tool_output("t0", &persisted),
        user_tool_output("t1", &"q".repeat(200)),
        user_tool_output("t2", &"r".repeat(200)),
        user_tool_output("t3", &"s".repeat(200)),
    ];
    ContextCompactor::micro_compact(&mut msgs);
    assert_eq!(output_of(&msgs[0].content[0]), "[Earlier tool result saved at /tmp/old.txt]");
}

#[test]
fn summary_input_short_passthrough() {
    let msgs = vec![user_text("hello world")];
    let s = ContextCompactor::summary_input(&msgs);
    assert!(s.contains("hello world"));
    assert!(!s.contains("middle omitted"));
}

#[test]
fn summary_input_long_truncates_with_marker() {
    let big = "a".repeat(SUMMARY_INPUT_CHAR_LIMIT + 10_000);
    let msgs = vec![user_text(&big)];
    let s = ContextCompactor::summary_input(&msgs);
    assert!(s.contains("middle omitted; full transcript is on disk"));
    assert!(s.len() < big.len());
}

#[test]
fn summary_message_separates_request_and_summary() {
    let m = ContextCompactor::summary_message("Compacted", "do X", "goal: X", "/tmp/t.jsonl");
    assert_eq!(m.role, Role::User);
    let text = text_of(&m.content[0]);
    assert!(text.contains("[Compacted]"));
    assert!(text.contains("Current user request:\ndo X"));
    assert!(text.contains("Conversation summary (reference only):\ngoal: X"));
    assert!(text.contains("Full transcript: /tmp/t.jsonl"));
}

#[test]
fn snip_compact_no_op_at_or_under_limit() {
    let mut msgs: Vec<Message> = (0..50).map(|i| user_text(&format!("m{}", i))).collect();
    let before = msgs.len();
    ContextCompactor::snip_compact(&mut msgs, SNIP_MAX_MESSAGES, "/t.jsonl");
    assert_eq!(msgs.len(), before);
}

#[test]
fn snip_compact_archives_middle_keeps_head_and_tail() {
    let mut msgs: Vec<Message> = (0..60).map(|i| user_text(&format!("m{}", i))).collect();
    ContextCompactor::snip_compact(&mut msgs, SNIP_MAX_MESSAGES, "/t.jsonl");
    assert_eq!(msgs.len(), SNIP_HEAD + 1 + (SNIP_MAX_MESSAGES - SNIP_HEAD));
    assert_eq!(text_of(&msgs[0].content[0]), "m0");
    assert!(text_of(&msgs[SNIP_HEAD].content[0]).contains("messages archived"));
    assert_eq!(text_of(&msgs[SNIP_HEAD + 1].content[0]), "m13");
}

#[test]
fn snip_compact_protects_head_tool_call_pair() {
    let mut msgs: Vec<Message> = vec![
        user_text("m0"),
        user_text("m1"),
        assistant_tool_call("tu1"),
        user_tool_output("tu1", "result"),
    ];
    for i in 4..60 {
        msgs.push(user_text(&format!("m{}", i)));
    }
    ContextCompactor::snip_compact(&mut msgs, SNIP_MAX_MESSAGES, "/t.jsonl");
    assert!(msgs.iter().take(4).any(ContextCompactor::has_tool_call));
    assert!(msgs.iter().take(4).any(ContextCompactor::is_tool_output));
}

#[test]
fn snip_compact_protects_tail_tool_output_pair() {
    let mut msgs: Vec<Message> = (0..13).map(|i| user_text(&format!("m{}", i))).collect();
    msgs.push(assistant_tool_call("tuX"));
    msgs.push(user_tool_output("tuX", "r"));
    for i in 15..60 {
        msgs.push(user_text(&format!("m{}", i)));
    }
    ContextCompactor::snip_compact(&mut msgs, SNIP_MAX_MESSAGES, "/t.jsonl");
    let tail_has_tool_call = msgs.iter().any(ContextCompactor::has_tool_call);
    let tail_has_tool_output = msgs.iter().any(ContextCompactor::is_tool_output);
    assert!(tail_has_tool_call && tail_has_tool_output);
}

#[test]
fn a_history_is_prepared_for_a_call() {
    let mut short = vec![user_text("hi")];
    assert_eq!(ContextCompactor::prepare(&mut short, None), Preparation::Ready);
    let mut long: Vec<Message> = (0..60).map(|i| user_text(&format!("m{}", i))).collect();
    assert_eq!(ContextCompactor::prepare(&mut long, None), Preparation::NotArchived);
    assert_eq!(long.len(), 60);
    assert_eq!(ContextCompactor::prepare(&mut long, Some("/t.jsonl")), Preparation::Ready);
    assert_eq!(long.len(), 51);
    let mut wide = vec![user_text(&"x".repeat(60_000))];
    assert_eq!(ContextCompactor::prepare(&mut wide, None), Preparation::Summarise);
}

#[test]
fn a_summary_replaces_the_history() {
    let mut msgs = vec![user_text("a"), user_text("b")];
    ContextCompactor::compact_history(&mut msgs, "do X", "goal: X", "/t.jsonl");
    assert_eq!(msgs.len(), 1);
    assert!(text_of(&msgs[0].content[0]).contains("[Compacted]"));
    assert!(!ContextCompactor::summary_from(&[]).is_empty());
    assert_eq!(ContextCompactor::summary_from(&[ContentBlock::text("s")]), "s");
}

#[test]
fn a_reactive_compaction_keeps_the_latest_messages() {
    let mut msgs: Vec<Message> = (0..10).map(|i| user_text(&format!("m{}", i))).collect();
    let old = ContextCompactor::reactive_history(&msgs);
    assert_eq!(old.len(), 5);
    ContextCompactor::reactive_compact(&mut msgs, "do X", "goal: X", "/t.jsonl");
    assert_eq!(msgs.len(), 6);
    assert!(text_of(&msgs[0].content[0]).contains("[Reactive compact]"));
    assert_eq!(text_of(&msgs[5].content[0]), "m9");
}

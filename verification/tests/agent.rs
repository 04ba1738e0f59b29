//! The agent loop.

use bytemaker::agent::{
    add_usage, build_base_system, extract_final_text_from, format_messages_for_log, line_action,
    plan_gate, refused_call, response_lines, subagent_reply, subagent_turns, tool_requests,
    user_turn, wants_tools, AgentProfile, LineAction, LoopOutcome, LoopState, NextStep, ToolRun, UserTurn,
};
use bytemaker::builtins::PermissionHook;
use bytemaker::compact::MAX_REACTIVE_RETRIES;
use bytemaker::cron_scheduler::{CronManager, Moment};
use bytemaker::domain::message::{ContentBlock, Message, MessagesResponse, Role, Usage};
use bytemaker::error::{AgentError, LlmError};
use bytemaker::eval::fault::{text_response, tool_call_response};
use bytemaker::goal::{GoalAction, StopDecision};
use bytemaker::json::Json;
use bytemaker::providers::CallResult;
use bytemaker::tools::{AgentKind, PermissionCheck};

fn convert(v: serde_json::Value) -> Json {
    match v {
        serde_json::Value::Null => Json::Null,
        serde_json::Value::Bool(b) => Json::Bool(b),
        serde_json::Value::Number(n) => match (n.as_i64(), n.as_u64()) {
            (Some(i), _) => Json::Int(i),
            (None, Some(u)) => Json::UInt(u),
            (None, None) => Json::Real(n.to_string()),
        },
        serde_json::Value::String(s) => Json::Text(s),
        serde_json::Value::Array(a) => Json::Array(a.into_iter().map(convert).collect()),
        serde_json::Value::Object(o) => {
            Json::Object(o.into_iter().map(|(k, v)| (k, convert(v))).collect())
        }
    }
}

fn json(text: &str) -> Json {
    convert(serde_json::from_str(text).expect("valid JSON"))
}

#[test]
fn test_agent_constructs_isolated() {
    let a = AgentProfile::lead("/work", "sys");
    assert!(a.kind == AgentKind::Lead);
    assert_eq!(a.max_turns, usize::MAX);
}

#[test]
fn child_agent_shares_infra_and_scopes_per_loop_state() {
    let child = AgentProfile::child_agent("/work", 30, "sub");
    assert!(child.kind == AgentKind::Subagent);
    assert_eq!(child.max_turns, 30);
    assert!(!child.has_cron);
    assert!(child.memory_read_only);
    assert_eq!(child.base_system, "sub");
}

#[test]
fn isolated_agent_has_no_cron_goal_or_team() {
    let agent = AgentProfile::isolated("/work", "isolated system", 5);
    assert_eq!(agent.kind, AgentKind::Lead);
    assert_eq!(agent.max_turns, 5);
    assert!(!agent.has_cron);
    assert!(!agent.has_goal);
    assert!(!agent.has_team);
    assert_eq!(agent.base_system, "isolated system");
}

#[test]
fn extract_final_text_from_finds_last_assistant_text() {
    let messages = vec![
        Message::user_text("hi"),
        Message::assistant_content(vec![ContentBlock::text("first")]),
        Message::assistant_content(vec![ContentBlock::text("final answer")]),
    ];
    assert_eq!(extract_final_text_from(&messages).as_deref(), Some("final answer"));
    assert_eq!(extract_final_text_from(&[]), None);
}

#[test]
fn subagent_execute_tool_runs_pre_tool_denies_destructive() {
    let hook = PermissionHook.on_pre_tool(
        "command",
        &json(r#"{"command": "rm -rf /"}"#),
        false,
        Some(PermissionCheck::Pass),
        false,
    );
    let refused = refused_call(hook, AgentKind::Subagent, "command", None);
    assert!(refused.is_some(), "destructive command must be denied via pre_tool");
}

#[test]
fn execute_tool_plan_gate_blocks_command_for_teammate() {
    let r = plan_gate(AgentKind::Teammate, "command", Some("Pending"));
    assert!(r.unwrap().contains("Pending"), "teammate command must be gated");
    assert!(plan_gate(AgentKind::Teammate, "read_file", Some("Pending")).is_none());
    assert!(plan_gate(AgentKind::Lead, "command", Some("Pending")).is_none());
}

#[test]
fn execute_tool_allows_command_when_approved() {
    assert!(refused_call(None, AgentKind::Teammate, "command", None).is_none());
}

#[test]
fn loop_outcome_cancelled_variant_exists() {
    assert!(matches!(LoopOutcome::Cancelled, LoopOutcome::Cancelled));
}

fn due_jobs(manager: &mut CronManager) -> Vec<bytemaker::cron_scheduler::CronJob> {
    manager.schedule("* * * * *", "check the build", true, false).unwrap();
    manager.tick(&Moment { year: 2026, month: 8, day: 17, hour: 9, minute: 0 });
    manager.consume_queue()
}

fn run_of(id: &str, content: &str) -> ToolRun {
    ToolRun { call_id: id.to_string(), content: content.to_string(), reminder: None }
}

#[test]
fn tool_calls_are_answered_under_their_identifiers() {
    let mut state = LoopState::new(vec![Message::user_text("go")], 10);
    assert!(state.begin_turn().is_none());
    let call = tool_call_response("c1", "read_file", json(r#"{"path": "a"}"#));
    let response = match state.call_returned(CallResult::Success(call)) {
        NextStep::Answered { response, .. } => response,
        other => panic!("expected an answer, got {:?}", other),
    };
    assert!(wants_tools(&response));
    let requests = tool_requests(&response.content);
    assert_eq!(requests.len(), 1);
    assert_eq!(requests[0].name, "read_file");
    assert_eq!(requests[0].input.str_field("path"), Some("a"));
    state.tools_done(&[run_of(&requests[0].id, "contents")]);
    assert_eq!(state.messages().len(), 3);
    assert_eq!(state.messages()[2].role, Role::User);
    match &state.messages()[2].content[0] {
        ContentBlock::ToolOutput { call_id, content } => {
            assert_eq!((call_id.as_str(), content.as_str()), ("c1", "contents"));
        }
        _ => panic!("expected a tool output"),
    }
}

#[test]
fn a_failed_call_gives_the_scheduled_prompts_back() {
    let mut manager = CronManager::new("/work");
    let jobs = due_jobs(&mut manager);
    let mut state = LoopState::new(vec![Message::user_text("go")], 10);
    state.begin_turn();
    let told = state.deliver(jobs);
    assert_eq!(told.len(), 1);
    assert_eq!(state.messages().len(), 2);
    match state.call_returned(CallResult::Failure(LlmError::Network("down".into()))) {
        NextStep::Failed { error, restore } => {
            assert_eq!(error, AgentError::Network("down".into()));
            assert_eq!(restore.len(), 1);
            manager.restore_jobs(&restore);
        }
        other => panic!("expected a failure, got {:?}", other),
    }
    assert_eq!(state.messages().len(), 1);
    assert!(manager.has_queue());
}

#[test]
fn an_answered_call_acknowledges_the_scheduled_prompts() {
    let mut manager = CronManager::new("/work");
    let jobs = due_jobs(&mut manager);
    let mut state = LoopState::new(vec![], 10);
    state.begin_turn();
    state.deliver(jobs);
    match state.call_returned(CallResult::Success(text_response("ok"))) {
        NextStep::Answered { ack, .. } => assert_eq!(ack.len(), 1),
        other => panic!("expected an answer, got {:?}", other),
    }
    assert!(matches!(state.call_returned(CallResult::Cancelled), NextStep::Cancelled { restore } if restore.is_empty()));
}

#[test]
fn a_prompt_that_stays_too_long_ends_the_loop() {
    let mut state = LoopState::new(vec![Message::user_text("go")], 100);
    for _ in 0..MAX_REACTIVE_RETRIES {
        state.begin_turn();
        let r = state.call_returned(CallResult::PromptTooLong(LlmError::PromptTooLong("x".into())));
        assert!(matches!(r, NextStep::Compact));
    }
    let r = state.call_returned(CallResult::PromptTooLong(LlmError::PromptTooLong("x".into())));
    assert!(matches!(r, NextStep::Failed { .. }));
}

#[test]
fn turns_are_counted() {
    let mut state = LoopState::new(vec![], 1);
    assert!(state.begin_turn().is_none());
    assert_eq!(state.begin_turn(), Some(LoopOutcome::MaxTurnsReached));
}

#[test]
fn hooks_and_goals_can_keep_the_loop_going() {
    let mut state = LoopState::new(vec![], 10);
    assert!(!state.stop_asked(None));
    assert!(state.stop_asked(Some("keep going".to_string())));
    assert_eq!(state.messages().len(), 1);
    assert!(!state.goal_decided(None));
    let block = StopDecision {
        action: GoalAction::Block,
        reason: "tests fail".to_string(),
        condition: Some("tests pass".to_string()),
    };
    assert!(state.goal_decided(Some(block)));
    assert_eq!(state.messages().len(), 2);
}

#[test]
fn a_line_is_a_turn_a_goal_or_the_end() {
    assert!(matches!(line_action("  "), LineAction::Ignore));
    assert!(matches!(line_action("exit"), LineAction::Quit));
    assert!(matches!(line_action("hello"), LineAction::Turn(t) if t == "hello"));
    assert!(matches!(user_turn("/goal"), UserTurn::GoalStatus));
    assert!(matches!(user_turn("/goal clear"), UserTurn::GoalClear));
    assert!(matches!(user_turn("/goal tests pass"), UserTurn::GoalSet(g) if g == "tests pass"));
    assert!(matches!(user_turn("hello"), UserTurn::Prompt(t) if t == "hello"));
}

#[test]
fn subagents_have_bounded_turns_and_answer() {
    assert_eq!(subagent_turns(0), 1);
    assert_eq!(subagent_turns(30), 30);
    assert_eq!(subagent_turns(1000), 50);
    let messages = vec![Message::assistant_content(vec![ContentBlock::text("done")])];
    assert_eq!(subagent_reply(LoopOutcome::Completed, &messages, 30).answer, "done");
    assert_eq!(subagent_reply(LoopOutcome::Completed, &[], 30).answer, "(no summary)");
    assert_eq!(
        subagent_reply(LoopOutcome::MaxTurnsReached, &[], 30).answer,
        "Subagent stopped after 30 turns without a final answer."
    );
    assert_eq!(subagent_reply(LoopOutcome::Cancelled, &[], 30).answer, "(cancelled)");
}

#[test]
fn each_teammate_has_its_own_name() {
    let mate = AgentProfile::child_teammate("/work", "alice", "sub");
    assert_eq!(mate.owner, "alice");
    assert!(mate.has_team);
    let a = AgentProfile::child_agent_numbered("/work", 1, 30, "sub");
    let b = AgentProfile::child_agent_numbered("/work", 2, 30, "sub");
    assert_ne!(a.transcripts, b.transcripts);
}

#[test]
fn the_system_prompt_names_the_directory_and_the_skills() {
    let text = build_base_system("- pdf: Process PDFs.", "/work/dir", "linux");
    assert!(text.contains("/work/dir") && text.contains("- pdf: Process PDFs."));
}

#[test]
fn usage_adds_up() {
    assert_eq!(add_usage(5, Some(Usage { input_tokens: 3, output_tokens: 2 })), 10);
    assert_eq!(add_usage(5, None), 5);
}

#[test]
fn a_conversation_is_logged_with_its_blocks() {
    let log = format_messages_for_log(&[
        Message::user_text("question"),
        Message::assistant_content(vec![ContentBlock::text("answer")]),
    ]);
    assert_eq!(
        log,
        " [0] role=user blocks=1\n text: question\n [1] role=assistant blocks=1\n text: answer"
    );
}

#[test]
fn a_response_without_calls_asks_for_nothing() {
    let r = MessagesResponse {
        content: vec![ContentBlock::text("x")],
        finish_reason: "stop".into(),
        usage: None,
    };
    assert!(!wants_tools(&r));
    assert!(tool_requests(&r.content).is_empty());
}

#[test]
fn a_response_is_shown_line_by_line() {
    let content = vec![
        ContentBlock::text("let me look"),
        ContentBlock::ToolCall {
            id: "c1".to_string(),
            name: "read_file".to_string(),
            input: json(r#"{"path":"a"}"#),
        },
        ContentBlock::ToolCall { id: "c2".to_string(), name: "list".to_string(), input: Json::Null },
    ];
    assert_eq!(
        response_lines(&content),
        vec!["let me look", "⚙ read_file", "  {", "    \"path\": \"a\"", "  }", "⚙ list"]
    );
}

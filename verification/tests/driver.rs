//! The order of an agent's work.

use bytemaker::agent::{LoopOutcome, LoopState, ToolRun};
use bytemaker::cron_scheduler::{CronManager, Moment};
use bytemaker::domain::message::{ContentBlock, Message, Role};
use bytemaker::driver::{Ask, LoopAction, LoopEnd, LoopEvent, LoopParts};
use bytemaker::error::{AgentError, LlmError};
use bytemaker::eval::fault::{text_response, tool_call_response};
use bytemaker::goal::{GoalAction, StopDecision};
use bytemaker::json::Json;
use bytemaker::providers::CallResult;
use bytemaker::tools::AgentKind;

fn lead() -> LoopParts {
    LoopParts { kind: AgentKind::Lead, has_cron: true, has_team: false, has_goal: true }
}

fn sub() -> LoopParts {
    LoopParts { kind: AgentKind::Subagent, has_cron: false, has_team: false, has_goal: false }
}

fn teammate() -> LoopParts {
    LoopParts { kind: AgentKind::Teammate, has_cron: false, has_team: true, has_goal: false }
}

fn start(max_turns: usize) -> LoopState {
    LoopState::new(vec![Message::user_text("go")], max_turns)
}

fn ended(action: &LoopAction, outcome: LoopOutcome) -> bool {
    matches!(&action.end, Some(LoopEnd::Outcome(o)) if *o == outcome) && action.ask.is_none()
}

fn decision(action: GoalAction) -> StopDecision {
    StopDecision { action, reason: "tests fail".to_string(), condition: Some("green".to_string()) }
}

#[test]
fn a_lead_takes_every_step_of_a_turn() {
    let p = lead();
    let mut s = start(5);
    assert_eq!(s.next(&p, LoopEvent::Begin).ask, Some(Ask::Collect));
    assert_eq!(s.next(&p, LoopEvent::Collected(vec![])).ask, Some(Ask::TakeJobs));
    assert_eq!(s.messages().len(), 1);
    assert_eq!(s.next(&p, LoopEvent::Jobs(vec![])).ask, Some(Ask::Prepare));
    let prepared = vec![Message::user_text("short")];
    assert_eq!(s.next(&p, LoopEvent::Prepared(prepared)).ask, Some(Ask::Call));
    assert_eq!(s.messages()[0].content.len(), 1);
    let action = s.next(&p, LoopEvent::Returned(CallResult::Success(text_response("done"))));
    assert_eq!(action.ask, Some(Ask::AskStop));
    assert_eq!(action.lines, vec!["done".to_string()]);
    assert!(action.calls.is_empty());
    assert_eq!(s.next(&p, LoopEvent::StopAnswer(None)).ask, Some(Ask::AskGoal));
    let action = s.next(&p, LoopEvent::GoalDecision(decision(GoalAction::Allow)));
    assert_eq!(action.ask, Some(Ask::Remember));
    assert_eq!(s.next(&p, LoopEvent::Remembered(2)).ask, Some(Ask::Consolidate));
    let action = s.next(&p, LoopEvent::Consolidated);
    assert!(ended(&action, LoopOutcome::Completed));
    assert_eq!(s.into_messages().len(), 2);
}

#[test]
fn a_subagent_goes_straight_to_its_conversation() {
    let p = sub();
    let mut s = start(5);
    assert_eq!(s.next(&p, LoopEvent::Begin).ask, Some(Ask::Prepare));
    assert_eq!(s.next(&p, LoopEvent::StopAnswer(None)).ask, Some(Ask::Remember));
}

#[test]
fn a_teammate_reads_its_mailbox() {
    let p = teammate();
    let mut s = start(5);
    assert_eq!(s.next(&p, LoopEvent::Begin).ask, Some(Ask::ReadInbox));
    let event = LoopEvent::Inbox { added: vec![Message::user_text("hello")], stop: false };
    assert_eq!(s.next(&p, event).ask, Some(Ask::Prepare));
    assert_eq!(s.messages().len(), 2);
    let action = s.next(&p, LoopEvent::Inbox { added: vec![], stop: true });
    assert!(ended(&action, LoopOutcome::Completed));
}

#[test]
fn background_results_join_the_conversation() {
    let p = lead();
    let mut s = start(5);
    s.next(&p, LoopEvent::Begin);
    s.next(&p, LoopEvent::Collected(vec!["task 1 is done".to_string()]));
    assert_eq!(s.messages().len(), 2);
    assert_eq!(s.messages()[1].role, Role::User);
}

#[test]
fn tool_calls_are_run_before_the_next_turn() {
    let p = sub();
    let mut s = start(2);
    s.next(&p, LoopEvent::Begin);
    let call = tool_call_response("c1", "read_file", Json::Null);
    let action = s.next(&p, LoopEvent::Returned(CallResult::Success(call)));
    assert_eq!(action.ask, Some(Ask::RunTools));
    assert_eq!(action.calls.len(), 1);
    assert_eq!((action.calls[0].id.as_str(), action.calls[0].name.as_str()), ("c1", "read_file"));
    let run = ToolRun { call_id: "c1".to_string(), content: "text".to_string(), reminder: None };
    let action = s.next(&p, LoopEvent::ToolsRun(vec![run]));
    assert_eq!(action.ask, Some(Ask::Prepare));
    assert!(matches!(&s.messages()[2].content[0], ContentBlock::ToolOutput { .. }));
}

#[test]
fn the_last_turn_is_followed_by_none() {
    let p = sub();
    let mut s = start(1);
    assert_eq!(s.next(&p, LoopEvent::Begin).ask, Some(Ask::Prepare));
    let action = s.next(&p, LoopEvent::StopAnswer(Some("keep going".to_string())));
    assert!(ended(&action, LoopOutcome::MaxTurnsReached));
    assert_eq!(s.messages().len(), 2);
}

#[test]
fn an_unmet_goal_begins_another_turn() {
    let p = lead();
    let mut s = start(5);
    s.next(&p, LoopEvent::Begin);
    let action = s.next(&p, LoopEvent::GoalDecision(decision(GoalAction::Block)));
    assert_eq!(action.ask, Some(Ask::Collect));
    assert!(matches!(&s.messages()[1].content[0], ContentBlock::Text { text }
        if text.starts_with("[Goal still active]\nCondition: green\nEvaluator: tests fail\n")));
}

#[test]
fn a_conversation_that_is_too_long_is_compacted() {
    let p = sub();
    let mut s = start(5);
    s.next(&p, LoopEvent::Begin);
    let long = CallResult::PromptTooLong(LlmError::PromptTooLong("x".to_string()));
    assert_eq!(s.next(&p, LoopEvent::Returned(long)).ask, Some(Ask::Compact));
    let action = s.next(&p, LoopEvent::Compacted(vec![Message::user_text("summary")]));
    assert_eq!(action.ask, Some(Ask::Prepare));
    assert_eq!(s.messages().len(), 1);
}

#[test]
fn a_conversation_that_cannot_be_prepared_ends_the_loop() {
    let p = sub();
    let mut s = start(5);
    s.next(&p, LoopEvent::Begin);
    let event = LoopEvent::Broken { messages: vec![], error: AgentError::Other("disk".to_string()) };
    let action = s.next(&p, event);
    assert!(matches!(action.end, Some(LoopEnd::Error(AgentError::Other(_)))));
    assert!(s.messages().is_empty());
}

#[test]
fn an_interrupted_call_gives_the_jobs_back() {
    let p = lead();
    let mut manager = CronManager::new("/work");
    manager.schedule("* * * * *", "check the build", true, false).unwrap();
    manager.tick(&Moment { year: 2026, month: 8, day: 17, hour: 9, minute: 0 });
    let mut s = start(5);
    s.next(&p, LoopEvent::Begin);
    let action = s.next(&p, LoopEvent::Jobs(manager.consume_queue()));
    assert_eq!(action.lines.len(), 1);
    assert!(action.lines[0].starts_with("  [cron] delivered "));
    assert!(action.lines[0].ends_with(": check the build"));
    assert_eq!(s.messages().len(), 2);
    let action = s.next(&p, LoopEvent::Returned(CallResult::Cancelled));
    assert!(ended(&action, LoopOutcome::Cancelled));
    assert_eq!(action.restore.len(), 1);
    assert!(action.ack.is_empty());
    assert_eq!(s.messages().len(), 1);
}

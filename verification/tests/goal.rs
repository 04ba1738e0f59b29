//! Goals: what the evaluator is shown, what it answers, and when the loop may stop.

use bytemaker::domain::message::Message;
use bytemaker::goal::{
    is_clear_alias, parse_decision_json, transcript_text, transcript_text_with, GoalAction,
    GoalController, GoalError, GoalEvaluation, OpenAIGoalEvaluator, StopDecision, MAX_GOAL_LENGTH,
};
use bytemaker::providers::{CallResult, MockProvider};
use bytemaker::error::LlmError;

/// Answers without a model.
enum MockGoalEvaluator {
    NotOk,
    Keyword(String),
    Impossible,
    Fail,
}

impl MockGoalEvaluator {
    fn evaluate(&self, messages: &[Message]) -> Result<GoalEvaluation, GoalError> {
        match self {
            MockGoalEvaluator::Fail => {
                Err(GoalError::InvalidJson("mock evaluator failure".into()))
            }
            MockGoalEvaluator::Impossible => Ok(GoalEvaluation {
                ok: false,
                reason: "cannot be completed".into(),
                impossible: true,
            }),
            MockGoalEvaluator::Keyword(kw) => {
                if transcript_text(messages).contains(kw.as_str()) {
                    Ok(GoalEvaluation {
                        ok: true,
                        reason: format!("found '{kw}' in conversation"),
                        impossible: false,
                    })
                } else {
                    Ok(GoalEvaluation {
                        ok: false,
                        reason: format!("'{kw}' not yet in conversation"),
                        impossible: false,
                    })
                }
            }
            MockGoalEvaluator::NotOk => Ok(GoalEvaluation {
                ok: false,
                reason: "not yet satisfied".into(),
                impossible: false,
            }),
        }
    }
}

fn msgs(texts: &[&str]) -> Vec<Message> {
    texts.iter().map(|t| Message::user_text(t)).collect()
}

fn controller(block_cap: u32) -> GoalController {
    match GoalController::new().with_block_cap(block_cap) {
        Ok(c) => c,
        Err(e) => panic!("{}", e.to_string()),
    }
}

fn after_turn(
    c: &mut GoalController,
    ev: &MockGoalEvaluator,
    messages: &[Message],
    bg_running: bool,
) -> StopDecision {
    c.evaluate_after_turn(bg_running, ev.evaluate(messages), 0)
}

#[test]
fn error_messages_are_useful() {
    assert_eq!(GoalError::EmptyCondition.to_string(), "goal condition cannot be empty");
    assert!(GoalError::ConditionTooLong(MAX_GOAL_LENGTH).to_string().contains("4000"));
}

#[test]
fn clear_aliases_present() {
    assert!(is_clear_alias("clear"));
    assert!(is_clear_alias("cancel"));
}

#[test]
fn renders_role_and_text() {
    let m = msgs(&["hello"]);
    let t = transcript_text(&m);
    assert!(t.contains("USER:\nhello"));
}

#[test]
fn keeps_recent_complete_messages() {
    let m = msgs(&["one", "two", "three"]);
    let t = transcript_text_with(&m, 1000);
    assert!(t.contains("one") && t.contains("two") && t.contains("three"));
}

#[test]
fn trims_only_oversized_newest() {
    let big = "x".repeat(500);
    let m = msgs(&["old", &big]);
    let t = transcript_text_with(&m, 60);
    assert!(t.contains("...[middle omitted]..."), "got: {t}");
    assert!(!t.contains("old"), "older messages must be dropped: {t}");
}

#[test]
fn parse_strips_code_fence() {
    let e = parse_decision_json("```json\n{\"ok\":true,\"reason\":\"done\"}\n```").unwrap();
    assert!(e.ok);
    assert!(!e.impossible);
}

#[test]
fn parse_finds_first_object() {
    let e = parse_decision_json("noise {\"ok\":false,\"reason\":\"missing x\"} tail").unwrap();
    assert!(!e.ok);
    assert_eq!(e.reason, "missing x");
}

#[test]
fn parse_rejects_missing_ok() {
    assert!(parse_decision_json("{\"reason\":\"x\"}").is_err());
}

#[test]
fn parse_rejects_empty_reason() {
    assert!(parse_decision_json("{\"ok\":true,\"reason\":\"  \"}").is_err());
}

#[test]
fn parse_rejects_ok_and_impossible() {
    assert!(parse_decision_json("{\"ok\":true,\"reason\":\"x\",\"impossible\":true}").is_err());
}

#[test]
fn parse_impossible_defaults_false() {
    let e = parse_decision_json("{\"ok\":false,\"reason\":\"no\"}").unwrap();
    assert!(!e.impossible);
}

#[test]
fn mock_keyword_blocks_until_evidence_appears() {
    let ev = MockGoalEvaluator::Keyword("exit_code=0".into());
    let r = ev.evaluate(&msgs(&["started work"])).unwrap();
    assert!(!r.ok);
    let r2 = ev.evaluate(&msgs(&["ran pytest, exit_code=0, 12 passed"])).unwrap();
    assert!(r2.ok);
}

#[test]
fn mock_impossible() {
    let r = MockGoalEvaluator::Impossible.evaluate(&msgs(&["x"])).unwrap();
    assert!(r.impossible && !r.ok);
}

#[test]
fn mock_failing_returns_err() {
    assert!(MockGoalEvaluator::Fail.evaluate(&msgs(&["x"])).is_err());
}

#[test]
fn with_block_cap_rejects_zero() {
    assert!(GoalController::new().with_block_cap(0).is_err());
}

#[test]
fn set_goal_rejects_empty_and_oversized() {
    let mut c = controller(8);
    assert!(c.set_goal("   ", 0, 0).is_err());
    let long = "x".repeat(MAX_GOAL_LENGTH + 1);
    assert!(c.set_goal(&long, 0, 0).is_err());
    assert!(c.set_goal("pytest exits 0", 0, 0).is_ok());
}

#[test]
fn clear_returns_no_goal_when_empty() {
    let mut c = controller(8);
    assert_eq!(c.clear("cleared", 0), "No goal set");
}

#[test]
fn allow_when_no_goal() {
    let mut c = controller(8);
    let d = after_turn(&mut c, &MockGoalEvaluator::NotOk, &msgs(&["hi"]), false);
    assert_eq!(d.action, GoalAction::Allow);
}

#[test]
fn defer_when_background_running() {
    let mut c = controller(8);
    c.set_goal("c", 0, 0).unwrap();
    let d = after_turn(&mut c, &MockGoalEvaluator::NotOk, &msgs(&["hi"]), true);
    assert_eq!(d.action, GoalAction::Defer);
    assert_eq!(c.peek_last_terminal().unwrap().0, GoalAction::Defer);
}

#[test]
fn block_then_achieved_with_keyword() {
    let mut c = controller(8);
    let ev = MockGoalEvaluator::Keyword("exit_code=0".into());
    c.set_goal("pytest exits 0", 0, 0).unwrap();
    let d = after_turn(&mut c, &ev, &msgs(&["started"]), false);
    assert_eq!(d.action, GoalAction::Block);
    assert!(d.condition.is_some());
    let d2 = after_turn(&mut c, &ev, &msgs(&["ran pytest, exit_code=0"]), false);
    assert_eq!(d2.action, GoalAction::Achieved);
    assert!(c.active_condition().is_none());
}

#[test]
fn impossible_yields_failed_and_clears() {
    let mut c = controller(8);
    c.set_goal("c", 0, 0).unwrap();
    let d = after_turn(&mut c, &MockGoalEvaluator::Impossible, &msgs(&["x"]), false);
    assert_eq!(d.action, GoalAction::Failed);
    assert!(c.active_condition().is_none());
}

#[test]
fn evaluator_error_yields_error_keeps_goal() {
    let mut c = controller(8);
    c.set_goal("c", 0, 0).unwrap();
    let d = after_turn(&mut c, &MockGoalEvaluator::Fail, &msgs(&["x"]), false);
    assert_eq!(d.action, GoalAction::Error);
    assert_eq!(c.peek_last_terminal().unwrap().0, GoalAction::Error);
    assert!(c.active_condition().is_some());
}

#[test]
fn block_cap_yields_limit_after_cap_blocks() {
    let mut c = controller(2);
    c.set_goal("c", 0, 0).unwrap();
    for _ in 0..2 {
        let d = after_turn(&mut c, &MockGoalEvaluator::NotOk, &msgs(&["x"]), false);
        assert_eq!(d.action, GoalAction::Block);
    }
    let d = after_turn(&mut c, &MockGoalEvaluator::NotOk, &msgs(&["x"]), false);
    assert_eq!(d.action, GoalAction::Limit);
    assert!(c.active_condition().is_some());
}

#[test]
fn begin_query_resets_block_counter() {
    let mut c = controller(2);
    c.set_goal("c", 0, 0).unwrap();
    for _ in 0..2 {
        let _ = after_turn(&mut c, &MockGoalEvaluator::NotOk, &msgs(&["x"]), false);
    }
    c.begin_query();
    let d = after_turn(&mut c, &MockGoalEvaluator::NotOk, &msgs(&["x"]), false);
    assert_eq!(d.action, GoalAction::Block);
}

#[test]
fn take_last_terminal_drains() {
    let mut c = controller(8);
    c.set_goal("c", 0, 0).unwrap();
    let _ = after_turn(&mut c, &MockGoalEvaluator::Impossible, &msgs(&["x"]), false);
    assert!(c.take_last_terminal().is_some());
    assert!(c.take_last_terminal().is_none());
}

#[test]
fn status_reports_active_then_no_goal() {
    let mut c = controller(8);
    assert_eq!(c.status(0, 0), "No goal set");
    c.set_goal("pytest exits 0", 10, 0).unwrap();
    assert!(c.status(100, 0).contains("Goal active: pytest exits 0"));
    assert!(c.status(100, 0).contains("Tokens: 90"));
}

#[test]
fn the_evaluator_reads_the_answer_of_a_call() {
    let answer = MockProvider::new("{\"ok\":true,\"reason\":\"all tests pass\"}").stream_messages();
    let e = OpenAIGoalEvaluator::evaluate(answer).unwrap();
    assert!(e.ok);
    assert_eq!(e.reason, "all tests pass");
    let failed = CallResult::Failure(LlmError::Network("down".into()));
    assert!(OpenAIGoalEvaluator::evaluate(failed).is_err());
    assert!(OpenAIGoalEvaluator::evaluate(MockProvider::new("no object").stream_messages()).is_err());
}

#[test]
fn a_running_task_or_no_goal_asks_no_evaluator() {
    let mut c = controller(8);
    assert_eq!(c.decide_without_evaluation(false).unwrap().action, GoalAction::Allow);
    c.set_goal("c", 0, 0).unwrap();
    assert_eq!(c.decide_without_evaluation(true).unwrap().action, GoalAction::Defer);
    assert!(c.decide_without_evaluation(false).is_none());
}

//! Evaluation: recordings, faults, suites, judges and reports.

use bytemaker::pattern::escape;
use bytemaker::agent::{
    extract_final_text_from, tool_requests, wants_tools, LoopState, NextStep, ToolRun,
};
use bytemaker::domain::message::{ContentBlock, Message, MessagesResponse};
use bytemaker::error::LlmError;
use bytemaker::eval::cassette::{
    line_error, load_lines, snippet_diff, spec_from_env, CassetteEntry, CassetteProvider,
    CassetteSpec, RecordedResponse, RecordedUsage,
};
use bytemaker::eval::fault::{
    resp_with_usage, retry_delay, retryable, text_response, tool_call_response, Fault, FaultStep,
    FaultyProvider, RetryProvider, RetryStep, ScriptedProvider,
};
use bytemaker::eval::fingerprint::{canonical_value, fingerprint, MaskRule, MaskRules};
use bytemaker::eval::judge::{
    judge_failed, judge_messages, parse_verdict, verdict_slice, JudgeVerdict,
};
use bytemaker::eval::report::{
    compare, render_compare, CompareNumbers, CompareReport, RunReport, TaskReport,
};
use bytemaker::eval::suite::{Assertion, EvalSuite, EvalTask};
use bytemaker::eval::trajectory::{
    compose, detect_loop, CollectorSnapshot, Meter, ToolCounts, TrajectoryCollector,
    TrajectoryMetrics,
};
use bytemaker::eval::{
    assess, not_staged, rubrics_to_judge, task_masks, BrokenTool, EvalMode, EVAL_MAX_TURNS,
};
use bytemaker::json::Json;
use bytemaker::providers::{CallResult, MockProvider};
use sha2::Digest;

fn convert(v: serde_json::Value) -> Json {
    match v {
        serde_json::Value::Null => Json::Null,
        serde_json::Value::Bool(b) => Json::Bool(b),
        serde_json::Value::Number(n) => match (n.as_i64(), n.as_u64()) {
            (Some(i), _) => Json::Int(i),
            (None, Some(u)) => Json::UInt(u),
            (None, None) => Json::Real(n.to_string()),
        },
        serde_json::Value::String(s) => Json::Text(s),
        serde_json::Value::Array(a) => Json::Array(a.into_iter().map(convert).collect()),
        serde_json::Value::Object(o) => {
            Json::Object(o.into_iter().map(|(k, v)| (k, convert(v))).collect())
        }
    }
}

fn json(text: &str) -> Json {
    convert(serde_json::from_str(text).expect("valid JSON"))
}

fn to_value(j: &Json) -> serde_json::Value {
    match j {
        Json::Null => serde_json::Value::Null,
        Json::Bool(b) => serde_json::Value::from(*b),
        Json::Int(i) => serde_json::Value::from(*i),
        Json::UInt(u) => serde_json::Value::from(*u),
        Json::Real(t) => serde_json::from_str(t).expect("a number"),
        Json::Text(t) => serde_json::Value::from(t.as_str()),
        Json::Array(a) => serde_json::Value::Array(a.iter().map(to_value).collect()),
        Json::Object(o) => {
            serde_json::Value::Object(o.iter().map(|(k, v)| (k.clone(), to_value(v))).collect())
        }
    }
}

fn text_of(r: &MessagesResponse) -> String {
    match &r.content[0] {
        ContentBlock::Text { text } => text.clone(),
        _ => panic!("expected text block"),
    }
}

// ---- faults ----

#[test]
fn scripted_provider_returns_sequence_and_counts() {
    let mut p = ScriptedProvider::new(vec![text_response("a"), text_response("b")]);
    let r1 = p.stream_messages();
    let r2 = p.stream_messages();
    assert!(matches!(r1, CallResult::Success(ref s) if text_of(s) == "a"));
    assert!(matches!(r2, CallResult::Success(ref s) if text_of(s) == "b"));
    assert_eq!(p.calls(), 2);
    let r3 = p.stream_messages();
    assert!(matches!(r3, CallResult::Failure(ref e) if e.to_string().contains("exhausted")));
}

#[test]
fn tool_call_response_has_tool_call_finish_reason() {
    let r = tool_call_response("call_1", "read_file", json(r#"{"path": "README.md"}"#));
    assert_eq!(r.finish_reason, "tool_call");
    assert!(matches!(r.content[0], ContentBlock::ToolCall { .. }));
    let r2 = text_response("done");
    assert_eq!(r2.finish_reason, "stop");
}

#[test]
fn faulty_provider_classifies_injected_errors() {
    let mut p = FaultyProvider::new(vec![FaultStep::Fail(Fault::RateLimit)]);
    let r = p.stream_messages();
    assert!(matches!(r, CallResult::Failure(LlmError::RateLimit(_))));
    assert_eq!(p.calls(), 1);
}

#[test]
fn retry_provider_survives_two_429s_with_three_total_calls() {
    let mut faulty = FaultyProvider::new(vec![
        FaultStep::Fail(Fault::RateLimit),
        FaultStep::Fail(Fault::RateLimit),
        FaultStep::Succeed(resp_with_usage("ok", 10, 5)),
    ]);
    let retry = RetryProvider::new(3, 0);
    let r = retry.stream_messages(&mut faulty);
    assert!(matches!(r, CallResult::Success(_)), "got: {r:?}");
    assert_eq!(faulty.calls(), 3, "1 initial + 2 retries = 3 total calls");
}

#[test]
fn retry_provider_does_not_retry_auth_errors() {
    let mut faulty = FaultyProvider::new(vec![
        FaultStep::Fail(Fault::AuthError),
        FaultStep::Succeed(text_response("never reached")),
    ]);
    let r = RetryProvider::new(3, 0).stream_messages(&mut faulty);
    assert!(matches!(r, CallResult::Failure(LlmError::AuthError(_))));
    assert_eq!(faulty.calls(), 1, "auth errors are not retryable");
}

#[test]
fn retry_provider_gives_up_after_budget() {
    let script = (0..10).map(|_| FaultStep::Fail(Fault::RateLimit)).collect();
    let mut faulty = FaultyProvider::new(script);
    let r = RetryProvider::new(2, 0).stream_messages(&mut faulty);
    assert!(matches!(r, CallResult::Failure(LlmError::RateLimit(_))));
    assert_eq!(faulty.calls(), 3, "1 initial + max_retries(2)");
}

#[test]
fn only_passing_failures_are_retried_and_the_wait_doubles() {
    assert!(retryable(&CallResult::Failure(LlmError::Timeout { seconds: 1 })));
    assert!(!retryable(&CallResult::Failure(LlmError::AuthError("x".into()))));
    assert!(!retryable(&CallResult::Success(text_response("x"))));
    assert_eq!(retry_delay(10, 0), 10);
    assert_eq!(retry_delay(10, 3), 80);
}

// ---- fingerprints ----

#[test]
fn fingerprint_is_stable_for_same_messages() {
    let masks = MaskRules::default_rules();
    let msgs = vec![Message::user_text("Read README.md and summarize")];
    assert_eq!(
        fingerprint(&msgs, &masks).as_str(),
        fingerprint(&msgs, &masks).as_str(),
        "identical messages must fingerprint identically"
    );
}

#[test]
fn fingerprint_changes_when_text_changes() {
    let masks = MaskRules::default_rules();
    let a = vec![Message::user_text("summarize")];
    let b = vec![Message::user_text("summarise")];
    assert_ne!(fingerprint(&a, &masks).as_str(), fingerprint(&b, &masks).as_str());
}

#[test]
fn timestamps_and_uuids_are_masked() {
    let masks = MaskRules::default_rules();
    let a = vec![Message::user_text(
        "run at 2026-08-29T10:00:00Z for id 123e4567-e89b-12d3-a456-426614174000",
    )];
    let b = vec![Message::user_text(
        "run at 2027-01-01T00:00:00Z for id 00000000-0000-0000-0000-000000000000",
    )];
    assert_eq!(fingerprint(&a, &masks).as_str(), fingerprint(&b, &masks).as_str());
}

#[test]
fn local_datetime_is_masked() {
    let masks = MaskRules::default_rules();
    let a = vec![Message::user_text("now: 2026-08-29 10:00:00")];
    let b = vec![Message::user_text("now: 2027-12-31 23:59:59")];
    assert_eq!(fingerprint(&a, &masks).as_str(), fingerprint(&b, &masks).as_str());
}

#[test]
fn literal_mask_replaces_workspace_path() {
    let masks = MaskRules::empty().with_literal("C:\\tmp\\workspace-a", "<WORKSPACE>");
    let a = vec![Message::user_text("file at C:\\tmp\\workspace-a\\README.md")];
    let b = vec![Message::user_text("file at C:\\tmp\\workspace-zz\\README.md")];
    assert_ne!(fingerprint(&a, &masks).as_str(), fingerprint(&b, &masks).as_str());
    let masks_b = MaskRules::empty().with_literal("C:\\tmp\\workspace-zz", "<WORKSPACE>");
    assert_eq!(fingerprint(&a, &masks).as_str(), fingerprint(&b, &masks_b).as_str());
}

#[test]
fn fingerprint_display_is_sha256_prefixed_hex() {
    let masks = MaskRules::default_rules();
    let f = fingerprint(&[Message::user_text("x")], &masks);
    assert!(f.as_str().starts_with("sha256:"));
    assert_eq!(f.as_str().len(), "sha256:".len() + 64);
    assert!(f.to_string().starts_with("sha256:"));
}

#[test]
fn a_fingerprint_is_the_digest_of_the_canonical_text() {
    let masks = MaskRules::empty();
    let messages = [Message::user_text("x")];
    let text = to_value(&canonical_value(&messages, &masks)).to_string();
    let digest = sha2::Sha256::digest(text.as_bytes());
    let hex: String = digest.iter().map(|b| format!("{b:02x}")).collect();
    assert_eq!(fingerprint(&messages, &masks).as_str(), format!("sha256:{hex}"));
}

#[test]
fn masks_yaml_roundtrip_and_invalid() {
    let one = || MaskRules {
        masks: vec![MaskRule { pattern: "foo".to_string(), replace: "BAR".to_string() }],
    };
    assert_eq!(one().mask_text("say foo foo"), "say BAR BAR");
    assert!(!MaskRules::load_or_default(None).masks.is_empty());
    assert!(!MaskRules::load_or_default(Some(Err("broken".to_string()))).masks.is_empty());
    assert_eq!(MaskRules::load_or_default(Some(Ok(one()))).masks.len(), 1);
}

#[test]
fn a_replacement_is_taken_as_it_is_written() {
    let rules = MaskRules {
        masks: vec![MaskRule { pattern: "foo".to_string(), replace: "[$0]".to_string() }],
    };
    assert_eq!(rules.mask_text("a foo"), "a [$0]");
}

#[test]
fn every_sign_with_a_meaning_is_escaped() {
    assert_eq!(escape("a.b"), "a\\.b");
    assert_eq!(
        escape("\\.+*?()|[]{}^$#&-~ x"),
        "\\\\\\.\\+\\*\\?\\(\\)\\|\\[\\]\\{\\}\\^\\$\\#\\&\\-\\~ x"
    );
    assert_eq!(escape("\\.+*?()|[]{}^$#&-~ x"), regex::escape("\\.+*?()|[]{}^$#&-~ x"));
}

#[test]
fn a_mask_that_is_no_pattern_changes_nothing() {
    let rules = MaskRules {
        masks: vec![MaskRule { pattern: "(".to_string(), replace: "x".to_string() }],
    };
    assert_eq!(rules.mask_text("a (b)"), "a (b)");
}

#[test]
fn the_masks_of_a_task_hide_its_workspace() {
    let masks = task_masks(&MaskRules::empty(), "/tmp/a.b", Some("/private/tmp/a.b"));
    assert_eq!(masks.mask_text("/private/tmp/a.b/x /tmp/a.b/y"), "/private<WORKSPACE>/x <WORKSPACE>/y");
    assert_eq!(masks.mask_text("/tmp/aXb"), "/tmp/aXb");
}

// ---- cassettes ----

fn recorded(answer: &str, messages: &[Message], masks: &MaskRules, times: usize) -> Vec<CassetteEntry> {
    let inner = MockProvider::new(answer);
    let mut recorder = CassetteProvider::record(masks.dup(), "test-model");
    let mut entries = Vec::new();
    for _ in 0..times {
        assert!(recorder.stream_messages(messages).is_none());
        match inner.stream_messages() {
            CallResult::Success(r) => {
                entries.push(recorder.entry(messages, &r, "2026-08-30T00:00:00+00:00"));
            }
            other => panic!("expected Success, got {:?}", other),
        }
    }
    assert_eq!(recorder.call_count(), times as u64);
    entries
}

#[test]
fn record_writes_jsonl_entries_then_replay_roundtrips() {
    let masks = MaskRules::default_rules();
    let msgs = vec![Message::user_text("hi")];
    let inner = MockProvider::new("hello");
    let mut recorder = CassetteProvider::record(masks.dup(), "test-model");
    let mut entries = Vec::new();
    for _ in 0..2 {
        assert!(recorder.stream_messages(&msgs).is_none());
        match inner.stream_messages() {
            CallResult::Success(r) => {
                entries.push(recorder.entry(&msgs, &r, "2026-08-30T00:00:00+00:00"));
            }
            other => panic!("expected Success, got {:?}", other),
        }
    }
    assert_eq!(recorder.call_count(), 2);
    assert_eq!(entries.len(), 2);
    assert!(entries[0].fingerprint.starts_with("sha256:"));
    assert_eq!(entries[0].request[0].to_wire(), msgs[0].to_wire());
    assert_eq!(entries[0].model, "test-model");
    assert!(!entries[0].recorded_at.is_empty());

    let mut player = CassetteProvider::replay(entries, "cassette.json", masks);
    match player.stream_messages(&msgs) {
        Some(CallResult::Success(resp)) => assert_eq!(text_of(&resp), "hello"),
        other => panic!("expected Success, got {:?}", other),
    }
}

#[test]
fn replay_drift_reports_actionable_error() {
    let masks = MaskRules::default_rules();
    let original = vec![Message::user_text("Read README.md and summarize it")];
    let entries = recorded("hello", &original, &masks, 1);
    let mut player = CassetteProvider::replay(entries, "cassette.json", masks);
    let drifted = vec![Message::user_text("Read README.md and summarise it")];
    match player.stream_messages(&drifted) {
        Some(CallResult::Failure(e)) => {
            let msg = e.to_string();
            assert!(msg.contains("cassette drift at call #1"), "got: {msg}");
            assert!(msg.contains("re-record"), "got: {msg}");
            assert!(
                msg.contains("summarize") || msg.contains("summarise"),
                "diff must show the changed word: {msg}"
            );
        }
        other => panic!("expected Failure(drift), got {:?}", other),
    }
}

#[test]
fn replay_exhausted_is_explicit() {
    let mut player =
        CassetteProvider::replay(vec![], "cassette.json", MaskRules::default_rules());
    match player.stream_messages(&[Message::user_text("x")]) {
        Some(CallResult::Failure(e)) => {
            assert!(e.to_string().contains("cassette exhausted at call #1"));
            assert!(e.to_string().contains("re-record"));
        }
        other => panic!("expected Failure(exhausted), got {:?}", other),
    }
}

#[test]
fn spec_from_env_parses_record_suffix_and_missing_file() {
    assert!(matches!(
        spec_from_env(Some("some/path.json+record"), false),
        Ok(Some(CassetteSpec::Record(p))) if p == "some/path.json"
    ));
    let err = spec_from_env(Some("definitely/missing.json"), false).unwrap_err();
    assert!(err.contains("does not exist") && err.contains("+record"), "got: {err}");
    assert!(matches!(spec_from_env(None, false), Ok(None)));
    assert!(matches!(spec_from_env(Some("  "), true), Ok(None)));
    assert!(matches!(
        spec_from_env(Some(" a.json "), true),
        Ok(Some(CassetteSpec::Replay(p))) if p == "a.json"
    ));
}

#[test]
fn recorded_response_roundtrips_messages_response() {
    let r = RecordedResponse {
        content: vec![ContentBlock::text("hi")],
        finish_reason: "stop".into(),
        usage: Some(RecordedUsage { input_tokens: 3, output_tokens: 2 }),
    };
    let resp: MessagesResponse = r.to_response();
    assert_eq!(resp.finish_reason, "stop");
    assert_eq!(resp.usage.as_ref().unwrap().input_tokens, 3);
    assert_eq!(RecordedResponse::from_response(&resp).usage.unwrap().output_tokens, 2);
}

#[test]
fn the_lines_of_a_cassette_keep_their_numbers() {
    let lines = load_lines("{\"a\":1}\n\n  {\"b\":2}  \n");
    assert_eq!(lines, vec![(1, "{\"a\":1}".to_string()), (3, "{\"b\":2}".to_string())]);
    assert_eq!(line_error("c.json", 3, "bad"), "cassette c.json line 3: bad");
}

#[test]
fn a_difference_is_shown_with_its_surroundings() {
    let a = format!("{}X{}", "a".repeat(50), "b".repeat(100));
    let b = format!("{}Y{}", "a".repeat(50), "b".repeat(100));
    let text = snippet_diff(&a, &b);
    assert_eq!(
        text,
        format!(
            "  drift near char 50:\n    recorded: ...{0}X{1}...\n    actual:   ...{0}Y{1}...",
            "a".repeat(40),
            "b".repeat(39)
        )
    );
}

#[test]
fn masks_can_be_changed_and_a_failed_write_is_told() {
    let messages = vec![Message::user_text("in /tmp/one")];
    let base = MaskRules::empty();
    let entries = recorded("ok", &messages, &task_masks(&base, "/tmp/one", None), 1);
    let mut player = CassetteProvider::replay(entries, "c.json", MaskRules::empty());
    player.set_masks(task_masks(&base, "/tmp/two", None));
    let moved = vec![Message::user_text("in /tmp/two")];
    assert!(matches!(player.stream_messages(&moved), Some(CallResult::Success(_))));
    match CassetteProvider::write_failed("disk full") {
        CallResult::Failure(e) => assert_eq!(e.to_string(), "cassette write failed: disk full"),
        other => panic!("expected Failure, got {:?}", other),
    }
}

// ---- judge ----

/// The verdict in the part of the answer that is to be read.
fn read_verdict(raw: &str) -> JudgeVerdict {
    let parsed = verdict_slice(raw).and_then(|part| {
        let v: serde_json::Value = serde_json::from_str(&part).ok()?;
        Some(JudgeVerdict {
            pass: v.get("pass")?.as_bool()?,
            score: format!("{:.2}", v.get("score")?.as_f64()?),
            rationale: v.get("rationale")?.as_str()?.to_string(),
        })
    });
    parse_verdict(raw, parsed)
}

#[test]
fn parse_verdict_plain_json() {
    let v = read_verdict(r#"{"pass": true, "score": 0.9, "rationale": "good"}"#);
    assert!(v.pass);
    assert_eq!(v.score, "0.90");
    assert_eq!(v.rationale, "good");
}

#[test]
fn parse_verdict_tolerates_fences_and_prose() {
    let answer = vec![
        "Here is my verdict",
        ":\n```json\n",
        "{\"pass\": false, \"score\": 0.2, \"rationale\": \"wrong\"}",
        "\n```\n",
        "thanks",
    ];
    let v = read_verdict(&answer.concat());
    assert!(!v.pass);
    assert_eq!(v.rationale, "wrong");
}

#[test]
fn parse_verdict_garbage_fails_deterministically() {
    let v = read_verdict("I cannot answer that.");
    assert!(!v.pass);
    assert_eq!(v.score, "0.00");
    assert!(v.rationale.contains("not valid JSON"), "got: {}", v.rationale);
}

fn run_judge(result: Result<String, LlmError>) -> JudgeVerdict {
    match result {
        Ok(content) => read_verdict(&content),
        Err(e) => judge_failed(&e),
    }
}

#[test]
fn run_judge_uses_provider_generate_completion() {
    let provider = MockProvider::new(r#"{"pass": true, "score": 1.0, "rationale": "accurate"}"#);
    let v = run_judge(provider.generate_completion().map(|r| r.content));
    assert!(v.pass);
    assert_eq!(v.score, "1.00");
}

#[test]
fn run_judge_maps_provider_error_to_fail() {
    let mut provider = ScriptedProvider::new(vec![]);
    let v = run_judge(provider.stream_messages().into_completion().map(|r| r.content));
    assert!(!v.pass);
    assert!(v.rationale.contains("judge call failed"), "got: {}", v.rationale);
}

#[test]
fn judge_messages_contains_all_inputs() {
    let msgs = judge_messages("do the task", "the rubric", "the answer");
    assert_eq!(msgs.len(), 1);
    let text = msgs[0].to_wire();
    assert!(text.contains("do the task") && text.contains("the rubric") && text.contains("the answer"));
    assert!(text.contains("\\\"pass\\\""), "prompt must demand the JSON verdict shape");
}

// ---- trajectories ----

#[test]
fn collector_counts_tool_calls_and_wall_time() {
    let mut c = TrajectoryCollector::new(100);
    c.on_post_tool("read_file", &json(r#"{"path": "a"}"#));
    c.on_post_tool("read_file", &json(r#"{"path": "b"}"#));
    c.on_post_tool("glob", &json(r#"{"pattern": "**"}"#));
    let snap = c.snapshot(100);
    assert_eq!(snap.tool_calls.get("read_file"), Some(2));
    assert_eq!(snap.tool_calls.get("glob"), Some(1));
    assert_eq!(snap.tool_calls.get("command"), None);
    assert!(!snap.loop_detected);
    assert!(c.snapshot(102).wall_ms >= 2, "wall clock must advance");
}

#[test]
fn collector_detects_repeated_adjacent_signatures() {
    let mut c = TrajectoryCollector::new(0);
    let input = json(r#"{"path": "same"}"#);
    for _ in 0..3 {
        c.on_post_tool("read_file", &input);
    }
    assert!(c.snapshot(0).loop_detected, "3 identical adjacent calls = loop");
    let mut c2 = TrajectoryCollector::new(0);
    c2.on_post_tool("read_file", &json(r#"{"path": "a"}"#));
    c2.on_post_tool("read_file", &json(r#"{"path": "b"}"#));
    c2.on_post_tool("read_file", &json(r#"{"path": "c"}"#));
    assert!(!c2.snapshot(0).loop_detected);
}

#[test]
fn detect_loop_edge_cases() {
    let s = |v: &[&str]| v.iter().map(|x| x.to_string()).collect::<Vec<_>>();
    assert!(!detect_loop(&s(&[])));
    assert!(!detect_loop(&s(&["a", "a"])));
    assert!(detect_loop(&s(&["a", "a", "a"])));
    assert!(detect_loop(&s(&["a", "b", "b", "b"])));
    assert!(!detect_loop(&s(&["a", "a", "b", "a", "a"])));
}

#[test]
fn metered_provider_accumulates_usage() {
    let mut scripted =
        ScriptedProvider::new(vec![resp_with_usage("a", 10, 5), resp_with_usage("b", 7, 3)]);
    let mut meter = Meter::new();
    for _ in 0..2 {
        meter.record(&scripted.stream_messages());
    }
    assert_eq!(meter.totals(), (2, 17, 8));
}

fn counts(names: &[&str]) -> ToolCounts {
    let mut c = ToolCounts::new();
    for n in names {
        c.count(n);
    }
    c
}

#[test]
fn compose_merges_collector_and_meter() {
    let snap = CollectorSnapshot {
        tool_calls: counts(&["read_file", "read_file"]),
        loop_detected: true,
        wall_ms: 42,
    };
    let m = compose(snap, (3, 100, 50));
    assert_eq!(m.steps, 3);
    assert_eq!(m.tool_calls.get("read_file"), Some(2));
    assert_eq!((m.prompt_tokens, m.completion_tokens), (100, 50));
    assert_eq!(m.wall_ms, 42);
    assert!(m.loop_detected);
}

// ---- suites ----

fn eval_task(name: &str, prompt: &str, assertions: Vec<Assertion>) -> EvalTask {
    EvalTask {
        name: name.to_string(),
        prompt: prompt.to_string(),
        workspace: None,
        assertions,
    }
}

#[test]
fn the_judge_is_asked_only_after_a_run_that_succeeded() {
    let t = eval_task(
        "t",
        "p",
        vec![
            Assertion::Judge { rubric: "first".to_string() },
            Assertion::Trajectory { max_steps: None, max_tokens: None, forbidden_tools: vec![] },
            Assertion::Judge { rubric: "second".to_string() },
        ],
    );
    assert_eq!(rubrics_to_judge(&t, &None), vec!["first".to_string(), "second".to_string()]);
    assert!(rubrics_to_judge(&t, &Some("drift".to_string())).is_empty());
}

#[test]
fn rejects_empty_and_duplicate_tasks() {
    let empty = EvalSuite { suite: "x".to_string(), tasks: vec![] };
    assert!(empty.checked().is_err());
    let dup = EvalSuite {
        suite: "x".to_string(),
        tasks: vec![eval_task("a", "p", vec![]), eval_task("a", "q", vec![])],
    };
    let err = dup.checked().unwrap_err();
    assert!(err.contains("duplicate task name: a"), "got: {err}");
}

// ---- reports ----

fn task(name: &str, pass: bool, tokens: u64, loop_detected: bool) -> TaskReport {
    TaskReport {
        name: name.to_string(),
        pass,
        judge: None,
        metrics: TrajectoryMetrics {
            steps: 2,
            prompt_tokens: tokens,
            completion_tokens: 0,
            loop_detected,
            ..Default::default()
        },
        failure: if pass { None } else { Some("assertion failed".into()) },
    }
}

fn report(tasks: Vec<TaskReport>) -> RunReport {
    RunReport::new("core".into(), "replay".into(), "20260830-000000".into(), tasks)
}

fn success_rate(r: &RunReport) -> f32 {
    if r.tasks.is_empty() {
        0.0
    } else {
        r.passed() as f32 / r.tasks.len() as f32
    }
}

fn increase(c: &CompareReport) -> f64 {
    if c.tokens_baseline == 0 {
        0.0
    } else {
        (c.tokens_candidate as f64 - c.tokens_baseline as f64) / c.tokens_baseline as f64 * 100.0
    }
}

fn shown(baseline: &RunReport, candidate: &RunReport, c: &CompareReport) -> String {
    let (a, b) = (success_rate(baseline), success_rate(candidate));
    render_compare(
        c,
        &CompareNumbers {
            rate_baseline: format!("{:.1}", a * 100.0),
            rate_candidate: format!("{:.1}", b * 100.0),
            rate_delta: format!("{:+.1}", (b - a) * 100.0),
            token_increase: format!("{:+.1}", increase(c)),
        },
    )
}

#[test]
fn success_rate_and_total_tokens() {
    let r = report(vec![task("a", true, 100, false), task("b", false, 50, false)]);
    assert_eq!(success_rate(&r), 0.5);
    assert_eq!(r.total_tokens(), 150);
    assert!(task("x", false, 0, false).judge.is_none());
    let failed = TaskReport::failed("x".into(), "staging broke".into());
    assert!(!failed.pass);
    assert_eq!(failed.failure.as_deref(), Some("staging broke"));
}

#[test]
fn table_shows_task_rows_and_verdicts() {
    let mut t = task("read-project-summary", false, 100, false);
    t.judge = Some(JudgeVerdict {
        pass: false,
        score: "0.10".into(),
        rationale: "inaccurate".into(),
    });
    let r = report(vec![task("minimal", true, 10, false), t]);
    let table = r.render_table(&format!("{:.1}", success_rate(&r) * 100.0));
    assert!(table.contains("read-project-summary"));
    assert!(table.contains("PASS") && table.contains("FAIL"));
    assert!(table.contains("inaccurate"), "failure detail must be visible");
    assert!(table.contains("50.0%"));
    let row = format!("{:<28} {:<6} {:>5} {:>8} {:>8} {:>10}\n", "minimal", "PASS", 2, 10, 0, 0);
    assert!(table.contains(&row), "got: {table}");
    assert!(table.contains("    -> judge(0.10): inaccurate\n    -> assertion failed\n"));
}

#[test]
fn compare_flags_regressions() {
    let baseline = report(vec![task("a", true, 100, false), task("b", true, 100, false)]);
    let candidate = report(vec![task("a", false, 100, false), task("b", true, 300, true)]);
    let c = compare(&baseline, &candidate);
    assert_eq!(success_rate(&baseline), 1.0);
    assert_eq!(success_rate(&candidate), 0.5);
    assert_eq!(c.newly_failed, vec!["a".to_string()]);
    assert!(c.recovered.is_empty());
    assert_eq!(c.tokens_baseline, 200);
    assert_eq!(c.tokens_candidate, 400);
    assert!(increase(&c) > 20.0);
    assert!(c.token_warning);
    assert_eq!(c.new_loops, vec!["b".to_string()]);

    let text = shown(&baseline, &candidate, &c);
    assert!(text.contains("NEWLY FAILED: a"), "got: {text}");
    assert!(text.contains("NEW LOOP DETECTED: b"), "got: {text}");
    assert!(text.contains("50.0%"), "token increase must be shown");
    assert!(text.contains("tokens: 200 -> 400 (+100.0%)"), "got: {text}");
}

#[test]
fn compare_flags_recovery_and_zero_baseline_tokens() {
    let baseline = report(vec![task("a", false, 0, false)]);
    let candidate = report(vec![task("a", true, 500, false)]);
    let c = compare(&baseline, &candidate);
    assert!(c.recovered.contains(&"a".to_string()));
    assert_eq!(increase(&c), 0.0);
    assert!(!c.token_warning);
}

#[test]
fn a_run_compared_with_itself_shows_no_change() {
    let r = report(vec![task("a", false, 100, true), task("b", true, 100, false)]);
    let c = compare(&r, &r);
    assert!(c.newly_failed.is_empty() && c.recovered.is_empty() && c.new_loops.is_empty());
    assert!(!c.token_warning);
    let grown = report(vec![task("a", false, 120, true), task("b", true, 120, false)]);
    assert!(!compare(&r, &grown).token_warning);
    let more = report(vec![task("a", false, 121, true), task("b", true, 120, false)]);
    assert!(compare(&r, &more).token_warning);
    assert_eq!(r.file_name(), "20260830-000000-core.json");
}

// ---- runs ----

enum Source {
    Record(ScriptedProvider, CassetteProvider, Vec<CassetteEntry>),
    Replay(CassetteProvider),
}

impl Source {
    fn call(&mut self, meter: &mut Meter, messages: &[Message]) -> CallResult {
        let result = match self {
            Source::Record(inner, cassette, entries) => {
                assert!(cassette.stream_messages(messages).is_none());
                let result = inner.stream_messages();
                if let CallResult::Success(r) = &result {
                    entries.push(cassette.entry(messages, r, "now"));
                }
                result
            }
            Source::Replay(cassette) => cassette.stream_messages(messages).expect("played back"),
        };
        meter.record(&result);
        result
    }
}

fn run_task(task: &EvalTask, source: &mut Source, meter: &mut Meter, broken: bool) -> TaskReport {
    let before = meter.totals();
    let mut collector = TrajectoryCollector::new(0);
    let mut state = LoopState::new(vec![Message::user_text(&task.prompt)], EVAL_MAX_TURNS);
    let mut run_error = None;
    while state.begin_turn().is_none() {
        let result = source.call(meter, state.messages());
        match state.call_returned(result) {
            NextStep::Answered { response, .. } => {
                if !wants_tools(&response) {
                    break;
                }
                let mut runs = Vec::new();
                for call in tool_requests(&response.content) {
                    collector.on_post_tool(&call.name, &call.input);
                    let content = if broken {
                        BrokenTool { name: call.name.clone() }.execute(&call.input)
                    } else {
                        "# demo\nA demo project for evals.".to_string()
                    };
                    runs.push(ToolRun { call_id: call.id, content, reminder: None });
                }
                state.tools_done(&runs);
            }
            NextStep::Failed { error, .. } => {
                run_error = Some(error.to_string());
                break;
            }
            other => panic!("unexpected step {:?}", other),
        }
    }
    let after = meter.totals();
    let metrics = compose(
        collector.snapshot(0),
        (after.0 - before.0, after.1 - before.1, after.2 - before.2),
    );
    let mut verdicts = Vec::new();
    if run_error.is_none() {
        let answer = extract_final_text_from(state.messages()).unwrap_or_default();
        for a in &task.assertions {
            if let Assertion::Judge { rubric } = a {
                let asked = judge_messages(&task.prompt, rubric, &answer);
                let reply = source.call(meter, &asked);
                verdicts.push(run_judge(reply.into_completion().map(|r| r.content)));
            }
        }
    }
    assess(task, metrics, run_error, &verdicts)
}

fn demo_tasks(prompt: &str) -> Vec<EvalTask> {
    vec![
        eval_task(
            "read-summary",
            prompt,
            vec![
                Assertion::Judge { rubric: "回答概括了 demo 项目".to_string() },
                Assertion::Trajectory {
                    max_steps: Some(4),
                    max_tokens: None,
                    forbidden_tools: vec!["write_file".to_string()],
                },
            ],
        ),
        eval_task(
            "minimal",
            "Reply with exactly: hello agent",
            vec![Assertion::Trajectory {
                max_steps: Some(2),
                max_tokens: None,
                forbidden_tools: vec![],
            }],
        ),
    ]
}

fn demo_script(verdict: &str) -> ScriptedProvider {
    ScriptedProvider::new(vec![
        tool_call_response("c1", "read_file", json(r#"{"path": "README.md"}"#)),
        text_response("The project is a demo project for evals."),
        text_response(verdict),
        text_response("hello agent"),
    ])
}

const GOOD: &str = r#"{"pass": true, "score": 1.0, "rationale": "accurate"}"#;
const BAD: &str =
    r#"{"pass": false, "score": 0.0, "rationale": "no evidence: README content was empty"}"#;

fn run_all(tasks: &[EvalTask], source: &mut Source, broken: bool, mode: EvalMode) -> RunReport {
    let mut meter = Meter::new();
    let reports = tasks.iter().map(|t| run_task(t, source, &mut meter, broken)).collect();
    RunReport::new("demo".into(), mode.word().into(), "20260830-000000".into(), reports)
}

fn recorder(script: ScriptedProvider) -> Source {
    Source::Record(
        script,
        CassetteProvider::record(MaskRules::default_rules(), "scripted"),
        Vec::new(),
    )
}

fn player(source: Source) -> Source {
    match source {
        Source::Record(_, _, entries) => Source::Replay(CassetteProvider::replay(
            entries,
            "cassettes/demo.json",
            MaskRules::default_rules(),
        )),
        Source::Replay(_) => panic!("nothing was recorded"),
    }
}

#[test]
fn e2e_record_then_replay_reproduces_trajectory() {
    let tasks = demo_tasks("Read README.md and summarize it");
    let mut source = recorder(demo_script(GOOD));
    let first = run_all(&tasks, &mut source, false, EvalMode::Record);
    assert_eq!(success_rate(&first), 1.0, "{:?}", first.tasks);

    let mut tape = player(source);
    let second = run_all(&tasks, &mut tape, false, EvalMode::Replay);
    assert_eq!(success_rate(&second), 1.0, "{:?}", second.tasks);

    let a = &first.tasks[0];
    let b = &second.tasks[0];
    assert_eq!(a.metrics.steps, b.metrics.steps, "steps must match");
    assert_eq!(a.metrics.tool_calls.get("read_file"), Some(1));
    assert_eq!(b.metrics.tool_calls.get("read_file"), Some(1), "tool sequence must match");
    assert_eq!(a.metrics.prompt_tokens, b.metrics.prompt_tokens, "recorded usage replays");
    assert_eq!(
        a.judge.as_ref().unwrap().rationale,
        b.judge.as_ref().unwrap().rationale,
        "judge verdict must be reproducible offline"
    );
}

#[test]
fn e2e_prompt_change_fails_with_actionable_drift() {
    let mut source = recorder(demo_script(GOOD));
    run_all(&demo_tasks("Read README.md and summarize it"), &mut source, false, EvalMode::Record);
    let mut tape = player(source);
    let replayed = run_all(
        &demo_tasks("Read README.md and summarise it"),
        &mut tape,
        false,
        EvalMode::Replay,
    );
    let failure = replayed.tasks[0].failure.as_ref().expect("task must fail");
    assert!(failure.contains("cassette drift at call #1"), "got: {failure}");
    assert!(failure.contains("re-record"), "got: {failure}");
    assert!(success_rate(&replayed) < 1.0);
}

#[test]
fn e2e_forbidden_tool_fails_trajectory_assertion() {
    let tasks = vec![eval_task(
        "rogue-write",
        "Write a file",
        vec![Assertion::Trajectory {
            max_steps: None,
            max_tokens: None,
            forbidden_tools: vec!["write_file".to_string()],
        }],
    )];
    let mut source = recorder(ScriptedProvider::new(vec![
        tool_call_response("c1", "write_file", json(r#"{"path": "x.txt", "content": "hi"}"#)),
        text_response("written"),
    ]));
    let report = run_all(&tasks, &mut source, false, EvalMode::Record);
    assert!(!report.tasks[0].pass);
    let failure = report.tasks[0].failure.as_deref().unwrap();
    assert!(failure.contains("forbidden tool used: write_file"), "got: {failure}");
}

#[test]
fn e2e_compare_flags_broken_tool_regression() {
    let tasks = demo_tasks("Read README.md and summarize it");
    let baseline = run_all(&tasks, &mut recorder(demo_script(GOOD)), false, EvalMode::Record);
    assert_eq!(success_rate(&baseline), 1.0);
    let candidate = run_all(&tasks, &mut recorder(demo_script(BAD)), true, EvalMode::Record);
    let c = compare(&baseline, &candidate);
    assert!(success_rate(&candidate) < success_rate(&baseline));
    assert_eq!(c.newly_failed, vec!["read-summary".to_string()]);
    let text = shown(&baseline, &candidate, &c);
    assert!(text.contains("NEWLY FAILED: read-summary"), "got: {text}");
    assert!(text.contains("-50.0 pts") || text.contains("pts"), "rate drop must be shown");
}

#[test]
fn each_limit_that_is_not_kept_is_told() {
    let t = eval_task(
        "t",
        "p",
        vec![
            Assertion::Trajectory {
                max_steps: Some(1),
                max_tokens: Some(10),
                forbidden_tools: vec!["a".to_string(), "b".to_string()],
            },
            Assertion::Judge { rubric: "r".to_string() },
        ],
    );
    let metrics = || TrajectoryMetrics {
        steps: 2,
        tool_calls: counts(&["b"]),
        prompt_tokens: 9,
        completion_tokens: 2,
        wall_ms: 5,
        loop_detected: true,
    };
    let verdict = JudgeVerdict { pass: false, score: "0.00".into(), rationale: "wrong".into() };
    let r = assess(&t, metrics(), None, &[verdict]);
    assert_eq!(
        r.failure.as_deref(),
        Some("steps 2 > max 1; tokens 11 > max 10; forbidden tool used: b; loop detected (repeated adjacent tool calls); judge: wrong")
    );
    assert_eq!(r.judge.unwrap().rationale, "wrong");
    let failed = assess(&t, metrics(), Some("boom".to_string()), &[]);
    assert_eq!(failed.failure.as_deref(), Some("agent run failed: boom"));
    assert!(failed.judge.is_none());
    assert_eq!(
        not_staged(&t, "no disk").failure.as_deref(),
        Some("workspace staging failed: no disk")
    );
}

#[test]
fn each_retry_waits_twice_as_long() {
    let retry = RetryProvider::new(2, 100);
    let fault = || CallResult::Failure(LlmError::RateLimit("slow down".into()));
    assert!(matches!(retry.step(fault(), 0), RetryStep::Wait { delay_ms: 100, attempt: 1 }));
    assert!(matches!(retry.step(fault(), 1), RetryStep::Wait { delay_ms: 200, attempt: 2 }));
    assert!(matches!(retry.step(fault(), 2), RetryStep::Done(CallResult::Failure(_))));
    let other = CallResult::Failure(LlmError::AuthError("no".into()));
    assert!(matches!(retry.step(other, 0), RetryStep::Done(CallResult::Failure(_))));
    let success = CallResult::Success(text_response("ok"));
    assert!(matches!(retry.step(success, 0), RetryStep::Done(CallResult::Success(_))));
}

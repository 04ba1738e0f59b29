//! Commands that run in the background.

use bytemaker::background_tasks::manager::{
    format_notification, worker_result, BackgroundManager, WorkerEnd, MAX_CONCURRENT,
};
use bytemaker::background_tasks::task::{status_word, BackgroundTask, TaskStatus};
use bytemaker::background_tasks::tools::{BackgroundStopHook, TaskOutputTool, TaskStopTool};
use bytemaker::domain::message::{Message, quote};
use bytemaker::json::Json;
use bytemaker::tools::{AgentKind, PermissionCheck};

fn convert(v: serde_json::Value) -> Json {
    match v {
        serde_json::Value::Null => Json::Null,
        serde_json::Value::Bool(b) => Json::Bool(b),
        serde_json::Value::Number(n) => match (n.as_i64(), n.as_u64()) {
            (Some(i), _) => Json::Int(i),
            (None, Some(u)) => Json::UInt(u),
            (None, None) => Json::Real(n.to_string()),
        },
        serde_json::Value::String(s) => Json::Text(s),
        serde_json::Value::Array(a) => Json::Array(a.into_iter().map(convert).collect()),
        serde_json::Value::Object(o) => {
            Json::Object(o.into_iter().map(|(k, v)| (k, convert(v))).collect())
        }
    }
}

fn json(text: &str) -> Json {
    convert(serde_json::from_str(text).expect("valid JSON"))
}

fn ended(mgr: &mut BackgroundManager, id: &str, end: WorkerEnd) -> (Vec<String>, String) {
    let (status, exit, text) = worker_result(&end);
    mgr.finalize(id, status, exit);
    let notices =
        mgr.collect().iter().map(|t| format_notification(t, Some(text.as_str()))).collect();
    (notices, text)
}

fn exited(code: i32, stdout: &str) -> WorkerEnd {
    WorkerEnd::Exited { code: Some(code), stdout: stdout.to_string(), stderr: String::new() }
}

#[test]
fn generate_id_format_and_unique() {
    let mut mgr = BackgroundManager::new("/out");
    let mut ids = Vec::new();
    for k in 0..50u32 {
        let id = mgr.generate_id(&[0, 1, 2, 3, k * 1000]).expect("an identifier is free");
        assert!(id.starts_with("bg_"));
        assert_eq!(id.len(), 11);
        assert!(id[3..].chars().all(|c| c.is_ascii_hexdigit()));
        if ids.len() < MAX_CONCURRENT {
            let started = mgr.start_with("echo", "t", 0, &[0, 1, 2, 3, k * 1000]).unwrap();
            assert_eq!(started, id);
            assert!(!ids.contains(&id), "id collision: {}", id);
            ids.push(id);
        }
    }
}

#[test]
fn start_completes_and_collect_injects_notification() {
    let mut mgr = BackgroundManager::new("/out");
    let id = mgr.start("echo hello_bg", "toolu_1", 1).expect("start should succeed");
    assert!(id.starts_with("bg_"));
    let (got, _) = ended(&mut mgr, &id, exited(0, "hello_bg\n"));
    assert_eq!(got.len(), 1, "expected one notification, got: {:?}", got);
    let n = &got[0];
    assert!(n.contains("<task_notification>"));
    assert!(n.contains(&id));
    assert!(n.contains("completed"));
    assert!(n.contains("hello_bg"));
    assert!(mgr.collect().is_empty(), "collect should drain, not repeat");

    let mut messages = vec![Message::user_text("hi")];
    assert_eq!(BackgroundManager::collect_and_inject(&mut messages, got), Some(1));
    assert_eq!(messages.len(), 2);
    assert_eq!(BackgroundManager::collect_and_inject(&mut messages, vec![]), None);
    assert_eq!(messages.len(), 2);
}

#[test]
fn failed_command_yields_failed_notification() {
    let mut mgr = BackgroundManager::new("/out");
    let id = mgr.start("bash -c 'exit 7'", "toolu_2", 1).unwrap();
    let (got, _) = ended(&mut mgr, &id, exited(7, ""));
    assert_eq!(got.len(), 1);
    assert!(got[0].contains("failed"), "got: {}", got[0]);
    assert!(got[0].contains("7"), "exit code in notification: {}", got[0]);
}

#[test]
fn timeout_yields_failed_with_consistent_text() {
    let mut mgr = BackgroundManager::with_timeout("/out", 1);
    let seconds = mgr.timeout_secs();
    let id = mgr.start("sleep 120", "toolu_3", 1).unwrap();
    let (got, log) = ended(&mut mgr, &id, WorkerEnd::TimedOut { seconds });
    assert_eq!(got.len(), 1, "should have completed via timeout");
    let n = &got[0];
    assert!(n.contains("failed"), "status must be failed: {}", n);
    assert!(n.contains("none"), "exit_code must be none: {}", n);
    assert!(log.contains("Timeout"), "log must say Timeout: {}", log);
    assert_eq!(log, "Error: Timeout (1s)");
}

#[test]
fn stop_cancels_running_task() {
    let mut mgr = BackgroundManager::with_timeout("/out", 60);
    let id = mgr.start("sleep 60", "toolu_4", 1).unwrap();
    let reply = mgr.stop(&id);
    assert!(reply.signal);
    assert!(reply.message.contains(&format!("[Stopped {}]", id)), "stop msg: {}", reply.message);
    let (got, _) = ended(&mut mgr, &id, WorkerEnd::Cancelled);
    assert_eq!(got.len(), 1);
    assert!(got[0].contains("cancelled"), "status must be cancelled: {}", got[0]);
}

#[test]
fn stop_on_finalized_task_returns_already() {
    let mut mgr = BackgroundManager::with_timeout("/out", 60);
    let id = mgr.start("sleep 60", "toolu_5", 1).unwrap();
    assert!(mgr.stop(&id).message.contains("[Stopped"));
    mgr.finalize(&id, TaskStatus::Cancelled, None);
    let second = mgr.stop(&id);
    assert!(!second.signal);
    assert!(
        second.message.contains("already"),
        "second stop on finalized task should say 'already', got: {}",
        second.message
    );
}

#[test]
fn running_tasks_have_ids_of_their_own() {
    let mut mgr = BackgroundManager::new("/out");
    let a = mgr.start_with("ls", "c1", 0, &[7]).unwrap();
    assert!(mgr.start_with("ls", "c2", 0, &[7]).is_err());
    let b = mgr.start_with("ls", "c3", 0, &[7, 8]).unwrap();
    assert_eq!(mgr.ids(), vec![a.clone(), b.clone()]);
    assert_eq!(mgr.ids(), vec!["bg_00000007".to_string(), "bg_00000008".to_string()]);
    mgr.finalize(&a, TaskStatus::Completed, Some(0));
    assert_eq!(mgr.collect().len(), 1);
    assert_eq!(mgr.ids(), vec![b]);
}

#[test]
fn stop_unknown_task_is_noop_error() {
    let mgr = BackgroundManager::new("/out");
    let reply = mgr.stop("bg_deadbeef");
    assert!(!reply.signal);
    assert!(reply.message.contains("not found"), "unknown stop: {}", reply.message);
}

#[test]
fn task_status_serializes_snake_case() {
    for (status, expected) in [
        (TaskStatus::Running, "\"running\""),
        (TaskStatus::Completed, "\"completed\""),
        (TaskStatus::Failed, "\"failed\""),
        (TaskStatus::Cancelled, "\"cancelled\""),
    ] {
        assert_eq!(quote(status_word(status)), expected);
    }
}

#[test]
fn task_output_tool_metadata() {
    let t = TaskOutputTool;
    assert_eq!(t.name(), "task_output");
    assert!(t.description().contains("background"));
    let s = t.input_schema();
    match s.get("required") {
        Some(Json::Array(names)) => assert_eq!(names[0].as_str(), Some("task_id")),
        other => panic!("no list of required fields: {:?}", other),
    }
    let block = s.get("properties").and_then(|p| p.get("block")).expect("block");
    assert_eq!(block.str_field("type"), Some("boolean"));
    assert!(matches!(t.check_permission(&json("{}")), PermissionCheck::Pass));
    assert!(t.available_for(AgentKind::Subagent));
    assert!(!t.available_for(AgentKind::Teammate));
}

#[test]
fn task_stop_tool_metadata() {
    let t = TaskStopTool;
    assert_eq!(t.name(), "task_stop");
    let s = t.input_schema();
    match s.get("required") {
        Some(Json::Array(names)) => assert_eq!(names[0].as_str(), Some("task_id")),
        other => panic!("no list of required fields: {:?}", other),
    }
    assert!(matches!(t.check_permission(&json("{}")), PermissionCheck::Pass));
    assert!(t.available_for(AgentKind::Subagent));
    assert!(!t.available_for(AgentKind::Teammate));
}

#[test]
fn collect_on_fresh_manager_is_empty() {
    let mut mgr = BackgroundManager::new("/out");
    assert!(mgr.collect().is_empty());
}

#[test]
fn no_more_commands_run_at_once_than_allowed() {
    let mut mgr = BackgroundManager::new("/out");
    for k in 0..MAX_CONCURRENT {
        assert!(mgr.start_with("sleep 1", "t", 0, &[k as u32]).is_ok());
    }
    assert_eq!(mgr.running_count(), MAX_CONCURRENT);
    assert!(mgr.start_with("sleep 1", "t", 0, &[99]).is_err());
    mgr.finalize("bg_00000000", TaskStatus::Completed, Some(0));
    assert!(mgr.start_with("sleep 1", "t", 0, &[99]).is_ok());
    assert!(mgr.has_running());
}

#[test]
fn the_output_of_a_task_can_be_read() {
    let mut mgr = BackgroundManager::new("/out");
    let id = mgr.start_with("echo hi", "t", 0, &[1]).unwrap();
    assert!(mgr.output_file(&id).unwrap().ends_with("bg_00000001.log"));
    assert!(!mgr.wait_over(&id, false));
    assert!(mgr.wait_over(&id, true));
    mgr.finalize(&id, TaskStatus::Completed, Some(0));
    assert!(mgr.wait_over(&id, false));
    let text = mgr.output(&id, "hi\n");
    assert_eq!(
        text,
        "task_id: bg_00000001\nstatus: completed\ncommand: echo hi\nexit_code: 0\noutput:\nhi"
    );
    assert!(mgr.output("bg_deadbeef", "").contains("not found"));
}

#[test]
fn a_long_output_is_summed_up() {
    let task = BackgroundTask {
        id: "bg_a1b2c3d4".to_string(),
        command: "npm install".to_string(),
        status: TaskStatus::Failed,
        call_id: "toolu_01".to_string(),
        started_at: 1700000000,
        output_file: ".task_outputs/background/bg_a1b2c3d4.log".to_string(),
        exit_code: Some(-1),
    };
    let n = format_notification(&task, Some(&"é".repeat(600)));
    assert_eq!(n.matches('é').count(), 500);
    assert!(n.contains("<exit_code>-1</exit_code>"));
    assert!(format_notification(&task, None).contains("(output unavailable)"));
}

#[test]
fn each_end_of_a_process_is_told() {
    assert_eq!(worker_result(&exited(0, "")).2, "(no output)");
    assert_eq!(worker_result(&WorkerEnd::SpawnFailed("x".into())).2, "Error: spawn failed: x");
    assert_eq!(worker_result(&WorkerEnd::WaitFailed("x".into())).2, "Error: wait failed: x");
    assert_eq!(worker_result(&WorkerEnd::Panicked).2, "Error: worker panicked");
    let (status, code, text) = worker_result(&WorkerEnd::Exited {
        code: None,
        stdout: "out".into(),
        stderr: "err".into(),
    });
    assert_eq!((status, code, text.as_str()), (TaskStatus::Failed, None, "out\nerr"));
}

#[test]
fn tasks_that_ended_keep_the_loop_going() {
    let hook = BackgroundStopHook::new();
    assert!(hook.on_stop(&[]).is_none());
    assert!(hook.on_stop(&["done".to_string()]).unwrap().contains("done"));
}

#[test]
fn a_request_for_output_needs_a_task() {
    assert!(TaskOutputTool.request(&json("{}")).is_err());
    let r = TaskOutputTool.request(&json(r#"{"task_id": "bg_1", "block": false}"#)).unwrap();
    assert_eq!(r.task_id, "bg_1");
    assert!(!r.block);
}

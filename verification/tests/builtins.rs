//! The hooks that every agent has.

use bytemaker::builtins::{
    check_deny_patterns, requires_approval, BuiltinHooks, ContextInjectHook, Gate, LargeOutputHook,
    PermissionHook, SummaryHook, TodoReminderHook,
};
use bytemaker::json::Json;
use bytemaker::tools::PermissionCheck;

fn convert(v: serde_json::Value) -> Json {
    match v {
        serde_json::Value::Null => Json::Null,
        serde_json::Value::Bool(b) => Json::Bool(b),
        serde_json::Value::Number(n) => match (n.as_i64(), n.as_u64()) {
            (Some(i), _) => Json::Int(i),
            (None, Some(u)) => Json::UInt(u),
            (None, None) => Json::Real(n.to_string()),
        },
        serde_json::Value::String(s) => Json::Text(s),
        serde_json::Value::Array(a) => Json::Array(a.into_iter().map(convert).collect()),
        serde_json::Value::Object(o) => {
            Json::Object(o.into_iter().map(|(k, v)| (k, convert(v))).collect())
        }
    }
}

fn json(text: &str) -> Json {
    convert(serde_json::from_str(text).expect("valid JSON"))
}

#[test]
fn todo_reminder_counter_every_three_turns() {
    let mut hook = TodoReminderHook::new();
    assert!(hook.on_post_tool("command").is_none());
    assert!(hook.on_post_tool("read_file").is_none());
    let reminder = hook.on_post_tool("write_file");
    assert!(reminder.is_some());
    assert!(reminder.unwrap().contains("Update your todos"));
    assert!(hook.on_post_tool("command").is_none());
    assert!(hook.on_post_tool("read_file").is_none());
    assert!(hook.on_post_tool("write_file").is_some());
}

#[test]
fn todo_reminder_resets_on_todo_write() {
    let mut hook = TodoReminderHook::new();
    assert!(hook.on_post_tool("command").is_none());
    assert!(hook.on_post_tool("read_file").is_none());
    assert!(hook.on_post_tool("todo_write").is_none());
    assert!(hook.on_post_tool("command").is_none());
    assert!(hook.on_post_tool("read_file").is_none());
    assert!(hook.on_post_tool("write_file").is_some());
}

#[test]
fn permission_hook_gate1_denies_destructive() {
    let result = PermissionHook.on_pre_tool(
        "command",
        &json(r#"{"command": "rm -rf /"}"#),
        true,
        Some(PermissionCheck::Pass),
        true,
    );
    assert!(
        matches!(result, Some(ref r) if r.contains("Permission denied")),
        "destructive command must be denied at gate 1, got {:?}",
        result
    );
}

#[test]
fn permission_hook_non_interactive_denies_approval_gated() {
    let result =
        PermissionHook.on_pre_tool("command", &json(r#"{"command": "rm foo"}"#), false, None, false);
    assert_eq!(
        result,
        Some("Permission denied by user".to_string()),
        "non-interactive approval must deny, got {:?}",
        result
    );
}

#[test]
fn a_granted_command_runs() {
    let input = json(r#"{"command": "rm foo"}"#);
    assert!(matches!(PermissionHook.start("command", &input), Gate::AskCommand { .. }));
    let result = PermissionHook.on_pre_tool("command", &input, true, Some(PermissionCheck::Pass), false);
    assert_eq!(result, None);
}

#[test]
fn a_tool_that_needs_approval_is_asked_for() {
    let input = json("{}");
    let check = || Some(PermissionCheck::NeedsApproval("writes outside".to_string()));
    assert!(PermissionHook.on_pre_tool("write_file", &input, false, check(), false).is_some());
    assert_eq!(PermissionHook.on_pre_tool("write_file", &input, false, check(), true), None);
    assert_eq!(PermissionHook.on_pre_tool("read_file", &input, false, None, false), None);
}

#[test]
fn destructive_commands_are_found_in_the_command() {
    assert!(check_deny_patterns("rm -rf /").is_some());
    assert!(check_deny_patterns("ls -la").is_none());
    assert!(requires_approval("ls -la").is_none());
    assert!(requires_approval("rm foo").is_some());
}

#[test]
fn the_working_directory_is_told() {
    assert_eq!(
        ContextInjectHook.on_prompt("/work/dir"),
        "[HOOK] UserPromptSubmit: working in /work/dir"
    );
}

#[test]
fn a_large_output_is_noticed() {
    let hook = LargeOutputHook;
    assert!(hook.warning("command", "small").is_none());
    assert!(hook.warning("command", &"x".repeat(100_000)).is_none());
    assert_eq!(
        hook.warning("command", &"x".repeat(100_001)).unwrap(),
        "[HOOK] Large output from command: 100001 chars"
    );
    assert!(hook.on_post_tool().is_none());
}

#[test]
fn the_summary_counts_tool_calls() {
    let mut hook = SummaryHook::new();
    assert!(hook.on_post_tool().is_none());
    assert!(hook.on_post_tool().is_none());
    assert_eq!(hook.summary(), "[HOOK] Stop: session used 2 tool calls");
    assert!(hook.on_stop().is_none());
}

#[test]
fn every_tool_call_is_tallied_though_the_reminder_comes() {
    let mut hooks = BuiltinHooks::new();
    let mut reminders = 0;
    for _ in 0..7 {
        if hooks.on_post_tool("command", "x").message.is_some() {
            reminders += 1;
        }
    }
    assert_eq!(reminders, 2);
    assert_eq!(hooks.summary.summary(), "[HOOK] Stop: session used 7 tool calls");
    let reply = hooks.on_post_tool("todo_write", &"x".repeat(100_001));
    assert!(reply.message.is_none());
    assert_eq!(
        reply.warning.as_deref(),
        Some("[HOOK] Large output from todo_write: 100001 chars")
    );
}

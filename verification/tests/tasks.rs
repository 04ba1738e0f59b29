//! Tasks with dependencies.

use bytemaker::json::Json;
use bytemaker::task_system::store::TaskStore;
use bytemaker::task_system::task::{Task, TaskStatus};
use bytemaker::task_system::tools::{
    claim_task, complete_task, incomplete_dependencies, ClaimTaskTool, CompleteTaskTool,
    CreateTaskTool, GetTaskTool, ListTasksTool,
};
use bytemaker::tools::PermissionCheck;

fn convert(v: serde_json::Value) -> Json {
    match v {
        serde_json::Value::Null => Json::Null,
        serde_json::Value::Bool(b) => Json::Bool(b),
        serde_json::Value::Number(n) => match (n.as_i64(), n.as_u64()) {
            (Some(i), _) => Json::Int(i),
            (None, Some(u)) => Json::UInt(u),
            (None, None) => Json::Real(n.to_string()),
        },
        serde_json::Value::String(s) => Json::Text(s),
        serde_json::Value::Array(a) => Json::Array(a.into_iter().map(convert).collect()),
        serde_json::Value::Object(o) => {
            Json::Object(o.into_iter().map(|(k, v)| (k, convert(v))).collect())
        }
    }
}

fn json(text: &str) -> Json {
    convert(serde_json::from_str(text).expect("valid JSON"))
}

fn task(id: &str, subject: &str, blocked_by: Vec<String>) -> Task {
    Task {
        id: id.to_string(),
        subject: subject.to_string(),
        description: "".to_string(),
        status: TaskStatus::Pending,
        owner: None,
        blocked_by,
        worktree: None,
    }
}

fn required(schema: &Json) -> Vec<String> {
    match schema.get("required") {
        Some(Json::Array(names)) => {
            names.iter().map(|n| n.as_str().unwrap_or("").to_string()).collect()
        }
        _ => vec![],
    }
}

#[test]
fn test_create_tool_name_and_description() {
    let tool = CreateTaskTool;
    assert_eq!(tool.name(), "create_task");
    assert!(tool.description().contains("Create a task"));
}

#[test]
fn test_create_tool_schema() {
    let tool = CreateTaskTool;
    let schema = tool.input_schema();
    assert_eq!(schema.str_field("type"), Some("object"));
    let properties = schema.get("properties").expect("properties");
    assert_eq!(properties.get("subject").unwrap().str_field("type"), Some("string"));
    assert_eq!(properties.get("description").unwrap().str_field("type"), Some("string"));
    assert_eq!(properties.get("blockedBy").unwrap().str_field("type"), Some("array"));

    let required = required(&schema);
    assert_eq!(required.len(), 1);
    assert_eq!(required[0], "subject");
}

#[test]
fn test_create_tool_passes_permission() {
    let tool = CreateTaskTool;
    let input = json(r#"{"subject": "test"}"#);
    assert!(matches!(tool.check_permission(&input), PermissionCheck::Pass));
}

#[test]
fn test_list_tool_name_and_schema() {
    let tool = ListTasksTool;
    assert_eq!(tool.name(), "list_tasks");
    assert_eq!(tool.input_schema().str_field("type"), Some("object"));
}

#[test]
fn test_list_tool_passes_permission() {
    let tool = ListTasksTool;
    assert!(matches!(tool.check_permission(&json("{}")), PermissionCheck::Pass));
}

#[test]
fn test_get_tool_name_and_schema() {
    let tool = GetTaskTool;
    assert_eq!(tool.name(), "get_task");
    assert_eq!(required(&tool.input_schema())[0], "task_id");
}

#[test]
fn test_incomplete_dependencies_with_no_deps() {
    let store = TaskStore::new(vec![]);
    let t = task("task_12345678", "Test", vec![]);
    assert!(incomplete_dependencies(&store, &t).is_empty());
}

#[test]
fn test_incomplete_dependencies_with_completed_deps() {
    let dep = task("task_00000001", "Dependency", vec![]);
    let mut store = TaskStore::new(vec![dep.dup()]);
    let mut dep_completed = dep.dup();
    dep_completed.status = TaskStatus::Completed;
    store.save(&dep_completed);
    let t = task("task_12345678", "Test", vec![dep.id.clone()]);
    assert!(incomplete_dependencies(&store, &t).is_empty());
}

#[test]
fn test_incomplete_dependencies_with_pending_deps() {
    let dep = task("task_00000001", "Dependency", vec![]);
    let store = TaskStore::new(vec![dep.dup()]);
    let t = task("task_12345678", "Test", vec![dep.id.clone()]);
    let incomplete = incomplete_dependencies(&store, &t);
    assert_eq!(incomplete.len(), 1);
    assert_eq!(incomplete[0], dep.id);
}

#[test]
fn test_incomplete_dependencies_with_missing_deps() {
    let store = TaskStore::new(vec![]);
    let t = task("task_12345678", "Test", vec!["task_missing".to_string()]);
    let incomplete = incomplete_dependencies(&store, &t);
    assert_eq!(incomplete.len(), 1);
    assert_eq!(incomplete[0], "task_missing");
}

#[test]
fn test_claim_tool_name_and_schema() {
    let tool = ClaimTaskTool;
    assert_eq!(tool.name(), "claim_task");
    assert_eq!(required(&tool.input_schema())[0], "task_id");
}

#[test]
fn test_claim_blocks_in_progress() {
    let mut t = task("task_00000001", "Test", vec![]);
    t.status = TaskStatus::InProgress;
    let mut store = TaskStore::new(vec![t]);
    let result = claim_task(&mut store, "task_00000001", "agent", "not found");
    assert!(result.contains("is in_progress"));
}

#[test]
fn test_claim_blocks_on_dependencies() {
    let mut store = TaskStore::new(vec![
        task("task_00000001", "Dependency", vec![]),
        task("task_00000002", "Test", vec!["task_00000001".to_string()]),
    ]);
    let result = claim_task(&mut store, "task_00000002", "agent", "not found");
    assert!(result.contains("Blocked by"));
}

#[test]
fn test_complete_tool_name_and_schema() {
    let tool = CompleteTaskTool;
    assert_eq!(tool.name(), "complete_task");
    assert_eq!(required(&tool.input_schema())[0], "task_id");
}

#[test]
fn test_complete_blocks_wrong_owner() {
    let mut t = task("task_00000001", "Test", vec![]);
    t.status = TaskStatus::InProgress;
    t.owner = Some("owner1".to_string());
    let mut store = TaskStore::new(vec![t]);
    let result = complete_task(&mut store, "task_00000001", "owner2", "not found");
    assert!(result.contains("owned by owner1, not owner2"));
}

#[test]
fn test_complete_unblocks_downstream_tasks() {
    let mut store = TaskStore::new(vec![
        task("task_00000001", "Schema", vec![]),
        task("task_00000002", "API", vec!["task_00000001".to_string()]),
    ]);
    claim_task(&mut store, "task_00000001", "agent", "not found");
    let told = complete_task(&mut store, "task_00000001", "agent", "not found");
    assert!(told.contains("API"), "the task that is free now is told: {told}");
    let claim_result = claim_task(&mut store, "task_00000002", "agent", "not found");
    assert!(claim_result.contains("Claimed"));
}

#[test]
fn a_task_is_claimed_once() {
    let mut store = TaskStore::new(vec![task("task_00000001", "Test", vec![])]);
    assert!(claim_task(&mut store, "task_00000001", "a", "m").contains("Claimed"));
    assert!(!claim_task(&mut store, "task_00000001", "b", "m").contains("Claimed"));
    assert_eq!(store.load("task_00000001").unwrap().owner.as_deref(), Some("a"));
}

#[test]
fn the_tools_take_the_identifier_from_their_input() {
    let mut store = TaskStore::new(vec![task("task_00000001", "Test", vec![])]);
    let input = json(r#"{"task_id": "task_00000001"}"#);
    assert_eq!(
        GetTaskTool.execute(&store, &input, "gone"),
        store.load("task_00000001").unwrap().to_json()
    );
    assert_eq!(GetTaskTool.execute(&store, &json(r#"{"task_id": "x"}"#), "gone"), "Error: gone");
    assert!(ListTasksTool.execute(&store).contains("Test"));
    assert!(ClaimTaskTool.execute(&mut store, &input, "agent", "gone").contains("Claimed"));
    let done = CompleteTaskTool.execute(&mut store, &input, "agent", "gone");
    assert!(done.contains("task_00000001"), "got: {done}");
    assert_eq!(store.load("task_00000001").unwrap().status, TaskStatus::Completed);
}

#[test]
fn a_task_is_shown_as_indented_json() {
    let mut t = task("task_00000001", "say \"hi\"", vec!["task_00000002".to_string()]);
    assert_eq!(
        t.to_json(),
        format!(
            "{{\n  \"id\": \"task_00000001\",\n  \"subject\": \"say \\\"hi\\\"\",\n  \"description\": {},\n  \"status\": \"pending\",\n  \"owner\": null,\n  \"blocked_by\": [\n    \"task_00000002\"\n  ],\n  \"worktree\": null\n}}",
            serde_json::to_string(&t.description).unwrap()
        )
    );
    t.owner = Some("agent".to_string());
    t.status = TaskStatus::InProgress;
    t.blocked_by = vec![];
    let v: serde_json::Value = serde_json::from_str(&t.to_json()).unwrap();
    assert_eq!(v["owner"], "agent");
    assert_eq!(v["status"], "in_progress");
    assert_eq!(v["blocked_by"].as_array().unwrap().len(), 0);
    assert_eq!(serde_json::to_string_pretty(&v["blocked_by"]).unwrap(), "[]");
}

#[test]
fn a_created_task_is_pending_and_can_be_loaded() {
    let mut store = TaskStore::new(vec![]);
    let made = store.create("T", "d", vec![]).unwrap();
    assert!(made.id.starts_with("task_") && made.id.len() == 13, "got: {}", made.id);
    assert_eq!(store.load(&made.id).unwrap().subject, "T");
    assert_eq!(made.status, TaskStatus::Pending);
    assert!(claim_task(&mut store, &made.id, "agent", "gone").contains("Claimed"));
}

#[test]
fn a_new_task_takes_no_id_that_is_in_use() {
    let mut store = TaskStore::new(vec![task("task_0000002a", "A", vec![])]);
    let made = store.create_with("B", "", vec![], &[42, 43]).unwrap();
    assert_eq!(made.id, "task_0000002b");
    assert_eq!(store.len(), 2);
    assert!(store.create_with("C", "", vec![], &[42, 43]).is_none());
    assert_eq!(store.len(), 2);
}

#[test]
fn a_new_task_is_made_of_the_input() {
    let r = CreateTaskTool.request(&json(r#"{"subject": "S", "blockedBy": ["task_1", 2]}"#));
    assert_eq!(r.subject, "S");
    assert_eq!(r.blocked_by, vec!["task_1".to_string()]);
    let reply = CreateTaskTool.reply(&task("task_00000001", "S", vec![]));
    assert!(reply.contains("task_00000001") && reply.contains("S"), "got: {reply}");
}

#[test]
fn a_blocked_task_names_what_it_waits_for() {
    let mut store = TaskStore::new(vec![
        task("task_00000001", "A", vec![]),
        task("task_00000002", "B", vec![]),
        task("task_00000003", "C", vec!["task_00000001".to_string(), "task_00000002".to_string()]),
    ]);
    assert_eq!(
        claim_task(&mut store, "task_00000003", "agent", "not found"),
        "Blocked by: [\"task_00000001\", \"task_00000002\"]"
    );
}

//! Todo lists.

use bytemaker::json::Json;
use bytemaker::todo::{SharedTodoManager, TodoItem, TodoManager, TodoStatus};

fn convert(v: serde_json::Value) -> Json {
    match v {
        serde_json::Value::Null => Json::Null,
        serde_json::Value::Bool(b) => Json::Bool(b),
        serde_json::Value::Number(n) => match (n.as_i64(), n.as_u64()) {
            (Some(i), _) => Json::Int(i),
            (None, Some(u)) => Json::UInt(u),
            (None, None) => Json::Real(n.to_string()),
        },
        serde_json::Value::String(s) => Json::Text(s),
        serde_json::Value::Array(a) => Json::Array(a.into_iter().map(convert).collect()),
        serde_json::Value::Object(o) => {
            Json::Object(o.into_iter().map(|(k, v)| (k, convert(v))).collect())
        }
    }
}

fn json(text: &str) -> Json {
    convert(serde_json::from_str(text).expect("valid JSON"))
}

#[test]
fn test_empty_render() {
    let tm = TodoManager::new();
    assert_eq!(tm.render(), "No todos.");
}

#[test]
fn test_render_with_items() {
    let mut tm = TodoManager::new();
    tm.items = vec![
        TodoItem { content: "Task 1".to_string(), status: TodoStatus::Pending },
        TodoItem { content: "Task 2".to_string(), status: TodoStatus::Completed },
    ];
    let rendered = tm.render();
    assert!(rendered.contains("[ ] Task 1"));
    assert!(rendered.contains("[x] Task 2"));
    assert!(rendered.contains("(1/2) completed"));
}

#[test]
fn test_max_items() {
    let mut tm = TodoManager::new();
    let large_array = Json::Array(vec![Json::Text("{}".to_string()); 21]);
    assert!(tm.update(&large_array).is_err());
}

#[test]
fn test_empty_content_rejected() {
    let mut tm = TodoManager::new();
    let invalid = json(r#"[{"content": "", "status": "pending"}]"#);
    assert!(tm.update(&invalid).is_err());
}

#[test]
fn test_invalid_status() {
    let mut tm = TodoManager::new();
    let invalid = json(r#"[{"content": "Task", "status": "invalid"}]"#);
    assert!(tm.update(&invalid).is_err());
}

#[test]
fn test_multiple_in_progress_rejected() {
    let mut tm = TodoManager::new();
    let invalid = json(
        r#"[{"content": "Task 1", "status": "in_progress"},
            {"content": "Task 2", "status": "in_progress"}]"#,
    );
    assert!(tm.update(&invalid).is_err());
}

#[test]
fn test_successful_update() {
    let mut tm = TodoManager::new();
    let valid = json(
        r#"[{"content": "Task 1", "status": "pending"},
            {"content": "Task 2", "status": "in_progress"}]"#,
    );
    assert!(tm.update(&valid).is_ok());
    assert_eq!(tm.items.len(), 2);
}

#[test]
fn a_refused_list_changes_nothing() {
    let mut tm = TodoManager::new();
    tm.update(&json(r#"[{"content": "Task 1", "status": "pending"}]"#)).unwrap();
    assert!(tm.update(&json(r#"[{"content": "Task 2", "status": "nope"}]"#)).is_err());
    assert!(tm.update(&json(r#"{"content": "no list"}"#)).is_err());
    assert_eq!(tm.items.len(), 1);
    assert_eq!(tm.items[0].content, "Task 1");
}

#[test]
fn the_shared_list_answers_with_what_it_shows() {
    let mut shared = SharedTodoManager::new(TodoManager::new());
    let reply = shared.run_todo_write(&json(r#"[{"content": "Task 1", "status": "completed"}]"#));
    assert_eq!(reply.shown, Some(("Current Tasks".to_string(), shared.render())));
    assert!(shared.render().contains("(1/1) completed"));
    let refused = shared.run_todo_write(&json(r#"[{"content": " ", "status": "pending"}]"#));
    assert!(refused.shown.is_none());
    assert!(refused.answer.starts_with("Error: "), "got: {}", refused.answer);
}

//! Hooks: whose answer counts, and how reminders reach the model.

use bytemaker::domain::message::{ContentBlock, Role};
use bytemaker::hooks::{assemble_post_tool_messages, HookRun};

#[test]
fn empty_registry_allows() {
    assert!(bytemaker::hooks::trigger(&[]).is_none());
}

#[test]
fn pre_tool_first_some_short_circuits() {
    let answers = vec![Some("nope".to_string()), Some("a later answer".to_string())];
    assert_eq!(bytemaker::hooks::trigger(&answers), Some("nope".to_string()));
}

#[test]
fn none_passes_through() {
    assert!(bytemaker::hooks::trigger(&[None, None]).is_none());
}

#[test]
fn post_tool_reminder_is_separate_user_message_not_tool_output() {
    let tool_outputs = vec![ContentBlock::tool_output("t1", "real command output")];
    let msgs = assemble_post_tool_messages(
        tool_outputs,
        vec!["<reminder>Update your todos.</reminder>".to_string()],
    );
    assert_eq!(
        msgs.len(),
        2,
        "reminder must be a separate user message, not folded into tool_output"
    );
    match &msgs[0].content[0] {
        ContentBlock::ToolOutput { content, .. } => assert_eq!(content, "real command output"),
        _ => panic!("first message must still hold the real tool_output"),
    }
    assert_eq!(msgs[1].role, Role::User);
    match &msgs[1].content[0] {
        ContentBlock::Text { text } => {
            assert_eq!(text, "<reminder>Update your todos.</reminder>");
        }
        _ => panic!("reminder must be a Text block, not a tool_output"),
    }
}

#[test]
fn no_reminder_yields_single_tool_outputs_message() {
    let tool_outputs = vec![ContentBlock::tool_output("t1", "out")];
    let msgs = assemble_post_tool_messages(tool_outputs, vec![]);
    assert_eq!(msgs.len(), 1);
}

#[test]
fn empty_results_and_no_reminder_yields_placeholder_message() {
    let msgs = assemble_post_tool_messages(vec![], vec![]);
    assert_eq!(msgs.len(), 1);
    assert_eq!(msgs[0].role, Role::User);
    assert!(!msgs[0].content.is_empty(), "must not emit empty content");
    match &msgs[0].content[0] {
        ContentBlock::Text { text } => assert!(!text.is_empty()),
        _ => panic!("placeholder must be a Text block"),
    }
}

#[test]
fn empty_results_with_reminder_yields_only_reminder_message() {
    let msgs = assemble_post_tool_messages(
        vec![],
        vec!["<reminder>Update your todos.</reminder>".to_string()],
    );
    assert_eq!(msgs.len(), 1);
    assert_eq!(msgs[0].role, Role::User);
    match &msgs[0].content[0] {
        ContentBlock::Text { text } => {
            assert_eq!(text, "<reminder>Update your todos.</reminder>");
        }
        _ => panic!("must be the reminder Text block"),
    }
}

#[test]
fn stop_some_forces_continue() {
    assert_eq!(bytemaker::hooks::trigger(&[Some("keep going".to_string())]), Some("keep going".to_string()));
}

#[test]
fn no_callback_is_asked_behind_the_first_answer() {
    let mut run = HookRun::new(3);
    let mut asked = Vec::new();
    while let Some(i) = run.next() {
        asked.push(i);
        run.answered(if i == 1 { Some("stop".to_string()) } else { None });
    }
    assert_eq!(asked, vec![0, 1]);
    assert_eq!(run.result(), Some("stop".to_string()));
    assert_eq!(HookRun::new(0).next(), None);
    assert_eq!(HookRun::new(0).result(), None);
}

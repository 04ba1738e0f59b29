//! Teams: who can be started, and what a teammate does next.

use bytemaker::domain::message::{ContentBlock, Message};
use bytemaker::task_system::store::TaskStore;
use bytemaker::task_system::task::{Task, TaskStatus};
use bytemaker::task_system::tools::claim_task;
use bytemaker::team::runtime::{
    after_mail, after_turn, is_reserved_teammate_name, is_valid_agent_name, release_assignment,
    spawn_teammate_thread, Duty, GateStatus, Phase, TeamRoster, TeammateRuntime, TeammateStatus,
    WaitStep,
};

#[test]
fn reserved_names_rejected() {
    assert!(is_reserved_teammate_name("lead"));
    assert!(is_reserved_teammate_name("Lead"));
    assert!(is_reserved_teammate_name("agent"));
    assert!(!is_reserved_teammate_name("alice"));
}

#[test]
fn spawn_rejects_invalid_and_reserved() {
    let mut team = TeamRoster::new();
    let r = spawn_teammate_thread(&mut team, "../x", "r", true, None, false);
    assert!(r.message.contains("Invalid"));
    let r = spawn_teammate_thread(&mut team, "lead", "r", true, None, false);
    assert!(r.message.contains("reserved"));
}

#[test]
fn spawn_valid_teammate_does_not_require_runtime() {
    let mut team = TeamRoster::new();
    let r = spawn_teammate_thread(&mut team, "alice", "r", true, None, false);
    assert!(r.message.contains("spawned"), "got {}", r.message);
    assert!(team.is_taken("alice"));
}

#[test]
fn spawn_rejects_duplicate() {
    let mut team = TeamRoster::new();
    let r1 = spawn_teammate_thread(&mut team, "alice", "r", true, None, false);
    assert!(r1.message.contains("spawned"));
    let r2 = spawn_teammate_thread(&mut team, "alice", "r", true, None, false);
    assert!(r2.message.contains("already exists"));
    let r3 = spawn_teammate_thread(&mut team, "ALICE", "r", true, None, false);
    assert!(r3.message.contains("already exists"));
}

#[test]
fn spawn_with_bad_task_does_not_spawn() {
    let mut team = TeamRoster::new();
    let mut store = TaskStore::new(vec![]);
    let claim = claim_task(&mut store, "task_00000000", "alice", "task_00000000 not found");
    let r = spawn_teammate_thread(&mut team, "alice", "r", true, Some(claim), false);
    assert!(r.message.contains("Cannot spawn"), "bad task_id must prevent spawn, got {}", r.message);
    assert!(!r.started);
    assert!(!team.is_taken("alice"));
}

struct TeamState {
    store: TaskStore,
    team: TeamRoster,
    assignment: Option<String>,
}

/// Releases the assignment of a teammate at its end, however it comes about.
struct ShutdownGuard {
    state: std::sync::Arc<std::sync::Mutex<TeamState>>,
    name: String,
}

impl Drop for ShutdownGuard {
    fn drop(&mut self) {
        let mut state = self.state.lock().unwrap();
        if let Some(id) = state.assignment.take() {
            release_assignment(&mut state.store, &id, &self.name);
        }
        state.team.remove(&self.name);
    }
}

#[test]
fn guard_releases_assignment_on_panic() {
    let mut store = TaskStore::new(vec![]);
    let task = store.create("T", "", vec![]).unwrap();
    let mut team = TeamRoster::new();
    let claim = claim_task(&mut store, &task.id, "alice", "missing");
    assert!(claim.contains("Claimed"), "{}", claim);
    spawn_teammate_thread(&mut team, "alice", "r", true, Some(claim), false);
    assert!(team.is_taken("alice"));
    let state = std::sync::Arc::new(std::sync::Mutex::new(TeamState {
        store,
        team,
        assignment: Some(task.id.clone()),
    }));

    let runtime = tokio::runtime::Builder::new_current_thread().build().unwrap();
    let guard = ShutdownGuard { state: state.clone(), name: "alice".to_string() };
    let ended = runtime.block_on(async move {
        let handle = tokio::spawn(async move {
            let _guard = guard;
            panic!("boom");
        });
        handle.await.is_err()
    });
    assert!(ended);

    let state = state.lock().unwrap();
    assert!(state.assignment.is_none(), "assignment not released on panic");
    let reloaded = state.store.load(&task.id).unwrap();
    assert_eq!(reloaded.status, TaskStatus::Pending, "task not returned to Pending");
    assert!(reloaded.owner.is_none(), "owner not cleared");
    assert!(!state.team.is_taken("alice"), "teammate still active after panic");
}

#[test]
fn names_are_short_and_plain() {
    assert!(is_valid_agent_name("a_b-9"));
    assert!(!is_valid_agent_name(""));
    assert!(!is_valid_agent_name("a b"));
    assert!(!is_valid_agent_name(&"x".repeat(65)));
    let mut team = TeamRoster::new();
    assert!(spawn_teammate_thread(&mut team, "bob", "r", false, None, false).message.contains("not initialized"));
}

#[test]
fn a_plan_is_asked_for_where_one_is_required() {
    let mut team = TeamRoster::new();
    let r = spawn_teammate_thread(&mut team, "bob", "r", true, None, true);
    assert_eq!(r.gate, GateStatus::Required);
    assert_eq!(team.status("bob"), Some(TeammateStatus::Working));
    team.set_status("bob", TeammateStatus::Idle);
    assert_eq!(team.status("bob"), Some(TeammateStatus::Idle));
    team.remove("bob");
    assert_eq!(team.status("bob"), None);
}

#[test]
fn a_teammate_waits_works_or_ends() {
    assert_eq!(after_turn(true, GateStatus::Approved, None).phase, Phase::Stop);
    let waiting = after_turn(false, GateStatus::Pending, Some("x".to_string()));
    assert_eq!(waiting.status, Some(TeammateStatus::WaitingApproval));
    assert!(waiting.sends.is_empty());
    let done = after_turn(false, GateStatus::NotRequired, Some("found it".to_string()));
    assert!(done.release);
    assert_eq!(done.sends[0], ("found it".to_string(), "result".to_string()));
    assert_eq!(done.sends.len(), 2);
    assert_eq!(after_mail(false, false, false), WaitStep::Claim);
    assert_eq!(after_mail(true, true, true), WaitStep::Exit);
    assert_eq!(after_mail(true, false, true), WaitStep::Work);
    assert_eq!(after_mail(true, false, false), WaitStep::Wait);
}

#[test]
fn a_teammate_works_waits_and_ends() {
    let task = Task {
        id: "task_1".to_string(),
        subject: "S".to_string(),
        description: "D".to_string(),
        status: TaskStatus::InProgress,
        owner: Some("alice".to_string()),
        blocked_by: vec![],
        worktree: None,
    };
    let mut t = TeammateRuntime::new("alice", "help", Some((&task, "/w")));
    assert_eq!(t.name(), "alice");
    assert_eq!(t.duty(), Some(Duty::Work));
    match &t.messages()[0].content[0] {
        ContentBlock::Text { text } => {
            assert_eq!(text, "help\n\n[Assigned task task_1] S\nD\nWork directory: /w");
        }
        _ => panic!("expected a text"),
    }
    let step = t.worked(vec![], false, GateStatus::NotRequired, Some("found".to_string()));
    assert_eq!(step.sends.len(), 2);
    assert_eq!(t.duty(), Some(Duty::Wait));
    t.mail_read(false, false, vec![]);
    assert_eq!(t.duty(), Some(Duty::Claim));
    t.task_claimed(None);
    assert_eq!(t.duty(), Some(Duty::Wait));
    t.mail_read(true, false, vec![]);
    assert_eq!(t.duty(), Some(Duty::Wait));
    t.task_claimed(Some((&task, "/w")));
    assert_eq!(t.duty(), Some(Duty::Work));
    assert!(matches!(&t.messages()[0].content[0], ContentBlock::Text { text }
        if text == "[Auto-claimed task task_1] S\nD\nWork directory: /w"));
    t.mail_read(true, false, vec![Message::user_text("hi")]);
    assert_eq!((t.duty(), t.messages().len()), (Some(Duty::Work), 2));
    t.mail_read(true, true, vec![]);
    assert_eq!(t.duty(), None);
    t.worked(vec![], true, GateStatus::NotRequired, None);
    assert_eq!(t.duty(), None);
}

#[test]
fn a_status_is_set_for_one_teammate_alone() {
    let mut team = TeamRoster::new();
    spawn_teammate_thread(&mut team, "alice", "r", true, None, false);
    team.set_status("bob", TeammateStatus::Stopping);
    assert_eq!(team.status("bob"), Some(TeammateStatus::Stopping));
    assert_eq!(team.status("alice"), Some(TeammateStatus::Working));
    team.set_status("bob", TeammateStatus::Idle);
    assert_eq!(team.status("bob"), Some(TeammateStatus::Idle));
    assert_eq!(team.status("alice"), Some(TeammateStatus::Working));
}

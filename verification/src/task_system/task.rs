//! Task records: `pending`, then `in_progress`, then `completed`.

use vstd::prelude::*;

use crate::domain::message::{quote, quoted};
use crate::text::{clone_list, concat2, concat3, join, joined, owned, str_eq, texts};

verus! {

broadcast use vstd::string::group_string_axioms;

/// Task status.
#[derive(Clone, Copy, Debug, PartialEq, Eq, Structural)]
pub enum TaskStatus {
    Pending,
    InProgress,
    Completed,
}

/// The word for a status.
pub open spec fn status_text(s: TaskStatus) -> Seq<char> {
    match s {
        TaskStatus::Pending => "pending"@,
        TaskStatus::InProgress => "in_progress"@,
        TaskStatus::Completed => "completed"@,
    }
}

impl TaskStatus {
    /// The word for a status.
    pub fn as_word(&self) -> (r: &'static str)
        ensures
            r@ == status_text(*self),
    {
        match self {
            TaskStatus::Pending => "pending",
            TaskStatus::InProgress => "in_progress",
            TaskStatus::Completed => "completed",
        }
    }
}

/// Task data.
#[derive(Debug)]
pub struct Task {
    /// `task_` and eight hexadecimal digits.
    pub id: String,
    /// Brief title.
    pub subject: String,
    pub description: String,
    pub status: TaskStatus,
    /// The agent that has claimed the task.
    pub owner: Option<String>,
    /// The tasks that have to be completed first.
    pub blocked_by: Vec<String>,
    /// The worktree that is bound to the task.
    pub worktree: Option<String>,
}

/// A text as a JSON string, or `null`.
pub open spec fn nullable(t: Option<Seq<char>>) -> Seq<char> {
    match t {
        Some(s) => quoted(s),
        None => "null"@,
    }
}

/// The texts as JSON strings, one to a line.
pub open spec fn quoted_lines(list: Seq<Seq<char>>) -> Seq<char> {
    join(list.map_values(|t: Seq<char>| "    "@ + quoted(t)), ",\n"@)
}

/// The texts as an indented JSON array.
pub open spec fn list_json(list: Seq<Seq<char>>) -> Seq<char> {
    if list.len() == 0 {
        "[]"@
    } else {
        "[\n"@ + quoted_lines(list) + "\n  ]"@
    }
}

/// The task as indented JSON, with every field.
pub open spec fn task_json(t: TaskV) -> Seq<char> {
    "{\n  \"id\": "@ + quoted(t.id) + ",\n  \"subject\": "@ + quoted(t.subject)
        + ",\n  \"description\": "@ + quoted(t.description) + ",\n  \"status\": \""@ + status_text(
        t.status,
    ) + "\",\n  \"owner\": "@ + nullable(t.owner) + ",\n  \"blocked_by\": "@ + list_json(
        t.blocked_by,
    ) + ",\n  \"worktree\": "@ + nullable(t.worktree) + "\n}"@
}

fn nullable_json(t: &Option<String>) -> (r: String)
    ensures
        r@ == nullable(t.deep_view()),
{
    match t {
        Some(s) => quote(s.as_str()),
        None => owned("null"),
    }
}

fn list_text(list: &[String]) -> (r: String)
    ensures
        r@ == list_json(texts(list@)),
{
    if list.len() == 0 {
        return owned("[]");
    }
    let ghost goal = texts(list@).map_values(|t: Seq<char>| "    "@ + quoted(t));
    let mut lines: Vec<String> = Vec::new();
    assert(texts(lines@) =~= goal.take(0));
    let mut i: usize = 0;
    while i < list.len()
        invariant
            i <= list@.len(),
            goal == texts(list@).map_values(|t: Seq<char>| "    "@ + quoted(t)),
            texts(lines@) == goal.take(i as int),
        decreases list@.len() - i,
    {
        let ghost before = texts(lines@);
        lines.push(concat2("    ", quote(list[i].as_str()).as_str()));
        assert(texts(lines@) =~= before.push(goal[i as int]));
        assert(goal.take(i + 1) =~= before.push(goal[i as int]));
        i += 1;
    }
    assert(goal.take(list@.len() as int) =~= goal);
    concat3("[\n", joined(&lines, ",\n").as_str(), "\n  ]")
}

/// A task, with texts as sequences of characters.
#[verifier::ext_equal]
pub struct TaskV {
    pub id: Seq<char>,
    pub subject: Seq<char>,
    pub description: Seq<char>,
    pub status: TaskStatus,
    pub owner: Option<Seq<char>>,
    pub blocked_by: Seq<Seq<char>>,
    pub worktree: Option<Seq<char>>,
}

impl View for Task {
    type V = TaskV;

    open spec fn view(&self) -> TaskV {
        TaskV {
            id: self.id@,
            subject: self.subject@,
            description: self.description@,
            status: self.status,
            owner: self.owner.deep_view(),
            blocked_by: texts(self.blocked_by@),
            worktree: self.worktree.deep_view(),
        }
    }
}

pub open spec fn tasks_view(s: Seq<Task>) -> Seq<TaskV> {
    s.map_values(|t: Task| t@)
}

impl Task {
    /// Whether the task can be claimed, given the tasks that it still waits for.
    pub fn can_claim(&self, incomplete_deps: &[String]) -> (r: bool)
        ensures
            r == (self@.status == TaskStatus::Pending && incomplete_deps@.len() == 0),
    {
        self.status == TaskStatus::Pending && incomplete_deps.len() == 0
    }

    /// Whether the agent can complete the task.
    pub fn can_complete(&self, owner: &str) -> (r: bool)
        ensures
            r == (self@.status == TaskStatus::InProgress && self@.owner == Some(owner@)),
    {
        match &self.owner {
            Some(o) => self.status == TaskStatus::InProgress && str_eq(o.as_str(), owner),
            None => false,
        }
    }

    /// The task as indented JSON, with every field.
    pub fn to_json(&self) -> (r: String)
        ensures
            r@ == task_json(self@),
    {
        let mut out = concat3("{\n  \"id\": ", quote(self.id.as_str()).as_str(), ",\n  \"subject\": ");
        out.append(quote(self.subject.as_str()).as_str());
        out.append(",\n  \"description\": ");
        out.append(quote(self.description.as_str()).as_str());
        out.append(",\n  \"status\": \"");
        out.append(self.status.as_word());
        out.append("\",\n  \"owner\": ");
        out.append(nullable_json(&self.owner).as_str());
        out.append(",\n  \"blocked_by\": ");
        out.append(list_text(self.blocked_by.as_slice()).as_str());
        out.append(",\n  \"worktree\": ");
        out.append(nullable_json(&self.worktree).as_str());
        out.append("\n}");
        out
    }

    /// A copy of the task.
    pub fn dup(&self) -> (r: Task)
        ensures
            r@ == self@,
    {
        let owner = match &self.owner {
            Some(t) => Some(t.clone()),
            None => None,
        };
        let worktree = match &self.worktree {
            Some(t) => Some(t.clone()),
            None => None,
        };
        Task {
            id: self.id.clone(),
            subject: self.subject.clone(),
            description: self.description.clone(),
            status: self.status,
            owner,
            blocked_by: clone_list(self.blocked_by.as_slice()),
            worktree,
        }
    }
}

} // verus!

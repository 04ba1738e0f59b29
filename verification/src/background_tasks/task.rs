//! Background task records: `running`, then one of `completed`, `failed` and `cancelled`.

use vstd::prelude::*;

verus! {

broadcast use vstd::string::group_string_axioms;

/// Background task status.
#[derive(Clone, Copy, Debug, PartialEq, Eq, Structural)]
pub enum TaskStatus {
    /// The command still runs.
    Running,
    /// The command ended with exit code 0.
    Completed,
    /// Another exit code, the timeout, or an error.
    Failed,
    /// Cancelled on request.
    Cancelled,
}

/// The word for a status.
pub open spec fn status_text(s: TaskStatus) -> Seq<char> {
    match s {
        TaskStatus::Running => "running"@,
        TaskStatus::Completed => "completed"@,
        TaskStatus::Failed => "failed"@,
        TaskStatus::Cancelled => "cancelled"@,
    }
}

/// The word for a status.
pub fn status_word(status: TaskStatus) -> (r: &'static str)
    ensures
        r@ == status_text(status),
{
    match status {
        TaskStatus::Running => "running",
        TaskStatus::Completed => "completed",
        TaskStatus::Failed => "failed",
        TaskStatus::Cancelled => "cancelled",
    }
}

/// Background task record.
#[derive(Debug)]
pub struct BackgroundTask {
    /// `bg_` and eight hexadecimal digits.
    pub id: String,
    /// The command.
    pub command: String,
    pub status: TaskStatus,
    /// The tool call that started the command.
    pub call_id: String,
    /// When the command started, in Unix seconds.
    pub started_at: u64,
    /// The file with the command's output.
    pub output_file: String,
    /// The exit code, where the command ended with one.
    pub exit_code: Option<i32>,
}

/// A task, with texts as sequences of characters.
#[verifier::ext_equal]
pub struct TaskV {
    pub id: Seq<char>,
    pub command: Seq<char>,
    pub status: TaskStatus,
    pub call_id: Seq<char>,
    pub started_at: u64,
    pub output_file: Seq<char>,
    pub exit_code: Option<i32>,
}

impl View for BackgroundTask {
    type V = TaskV;

    open spec fn view(&self) -> TaskV {
        TaskV {
            id: self.id@,
            command: self.command@,
            status: self.status,
            call_id: self.call_id@,
            started_at: self.started_at,
            output_file: self.output_file@,
            exit_code: self.exit_code,
        }
    }
}

pub open spec fn tasks_view(s: Seq<BackgroundTask>) -> Seq<TaskV> {
    s.map_values(|t: BackgroundTask| t@)
}

impl BackgroundTask {
    /// A copy of the record.
    pub fn dup(&self) -> (r: BackgroundTask)
        ensures
            r@ == self@,
    {
        BackgroundTask {
            id: self.id.clone(),
            command: self.command.clone(),
            status: self.status,
            call_id: self.call_id.clone(),
            started_at: self.started_at,
            output_file: self.output_file.clone(),
            exit_code: self.exit_code,
        }
    }
}

} // verus!

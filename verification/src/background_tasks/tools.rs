//! The tools by which the model looks after background tasks, and the hook that keeps the loop from
//! ending while there is something to tell.

use vstd::prelude::*;

use crate::background_tasks::manager::{
    find_task, BackgroundManager, StopReply,
};
use crate::background_tasks::task::{status_text, TaskStatus};
use crate::json::{bool_of, field, fields_view, json_str, list_view, text_field, Json, JsonV};
use crate::text::{join, joined, owned, texts};
use crate::tools::{
    flag, flag_v, object, put, put_text, schema, schema_v, typed, typed_v, AgentKind,
    PermissionCheck,
};

verus! {

broadcast use vstd::string::group_string_axioms;

/// The notifications that keep the loop going, where there are any.
pub open spec fn wake_text(notifications: Seq<Seq<char>>) -> Option<Seq<char>> {
    if notifications.len() == 0 {
        None
    } else {
        Some(join(notifications, "\n"@))
    }
}

/// Wakes the loop before it ends: where tasks have ended, their notifications start another turn.
pub struct BackgroundStopHook;

impl BackgroundStopHook {
    pub fn new() -> (r: Self) {
        BackgroundStopHook
    }

    /// The notifications that keep the loop going, where there are any.
    pub fn on_stop(&self, notifications: &[String]) -> (r: Option<String>)
        ensures
            r.deep_view() == wake_text(texts(notifications@)),
    {
        assert(texts(notifications@).len() == notifications@.len());
        if notifications.len() == 0 {
            None
        } else {
            Some(joined(notifications, "\n"))
        }
    }
}

/// What a call of the task output tool asks for.
#[derive(Debug)]
pub struct OutputRequest {
    pub task_id: String,
    /// Whether to wait for the end of the task.
    pub block: bool,
    /// How long to wait, in milliseconds.
    pub timeout_ms: u64,
}

/// The nonnegative integer, where `v` is one.
pub open spec fn u64_of(v: JsonV) -> Option<u64> {
    match v {
        JsonV::Int(n) => if n >= 0 {
            Some(n as u64)
        } else {
            None
        },
        JsonV::UInt(n) => Some(n),
        _ => None,
    }
}

fn as_u64(v: &Json) -> (r: Option<u64>)
    ensures
        r == u64_of(v@),
{
    match v {
        Json::Int(n) => if *n >= 0 {
            Some(*n as u64)
        } else {
            None
        },
        Json::UInt(n) => Some(*n),
        _ => None,
    }
}

/// Whether the call asks to wait.
pub open spec fn asks_to_block(input: JsonV) -> bool {
    field(input, "block"@) matches Some(v) && bool_of(v) == Some(true)
}

/// How long the call asks to wait.
pub open spec fn asked_timeout(input: JsonV) -> u64 {
    match field(input, "timeout_ms"@) {
        Some(v) => match u64_of(v) {
            Some(n) => n,
            None => 30_000,
        },
        None => 30_000,
    }
}

/// Polls a background task, or waits for it.
pub struct TaskOutputTool;

/// Cancels a background task and kills its process tree.
pub struct TaskStopTool;

impl TaskOutputTool {
    pub fn name(&self) -> (r: &'static str)
        ensures
            r@ == "task_output"@,
    {
        "task_output"
    }

    pub fn description(&self) -> (r: &'static str)
        ensures
            r@
                == "Get the status and output of a background task. Set block=true to wait (with timeout) for it to finish."@,
    {
        "Get the status and output of a background task. Set block=true to wait (with timeout) for it to finish."
    }

    pub fn input_schema(&self) -> (r: Json)
        ensures
            r@ == schema_v(
                seq![
                    ("task_id"@, typed_v("string"@)),
                    ("block"@, flag_v(false)),
                    (
                        "timeout_ms"@,
                        JsonV::Object(
                            seq![
                                ("type"@, JsonV::Text("integer"@)),
                                ("default"@, JsonV::Int(30000)),
                            ],
                        ),
                    ),
                ],
                seq![JsonV::Text("task_id"@)],
            ),
    {
        let mut timeout: Vec<(String, Json)> = Vec::new();
        put(&mut timeout, "type", json_str("integer"));
        put(&mut timeout, "default", Json::Int(30000));
        assert(fields_view(timeout@) =~= seq![
            ("type"@, JsonV::Text("integer"@)),
            ("default"@, JsonV::Int(30000)),
        ]);
        let mut properties: Vec<(String, Json)> = Vec::new();
        put(&mut properties, "task_id", typed("string"));
        put(&mut properties, "block", flag(false));
        put(&mut properties, "timeout_ms", object(timeout));
        let mut required: Vec<Json> = Vec::new();
        put_text(&mut required, "task_id");
        assert(fields_view(properties@) =~= seq![
            ("task_id"@, typed_v("string"@)),
            ("block"@, flag_v(false)),
            (
                "timeout_ms"@,
                JsonV::Object(
                    seq![("type"@, JsonV::Text("integer"@)), ("default"@, JsonV::Int(30000))],
                ),
            ),
        ]);
        assert(list_view(required@) =~= seq![JsonV::Text("task_id"@)]);
        schema(properties, required)
    }

    /// Nothing about the call needs approval.
    pub fn check_permission(&self, _input: &Json) -> (r: PermissionCheck)
        ensures
            r is Pass,
    {
        PermissionCheck::Pass
    }

    /// What the call asks for; an error where it names no task.
    pub fn request(&self, input: &Json) -> (r: Result<OutputRequest, String>)
        ensures
            match text_field(input@, "task_id"@) {
                None => r matches Err(e) && e@ == "Error: task_id required"@,
                Some(id) => r matches Ok(q) && q.task_id@ == id && q.block == asks_to_block(input@)
                    && q.timeout_ms == asked_timeout(input@),
            },
    {
        let task_id = match input.str_field("task_id") {
            None => {
                return Err(owned("Error: task_id required"));
            },
            Some(t) => owned(t),
        };
        let block = match input.get("block") {
            Some(v) => match v.as_bool() {
                Some(b) => b,
                None => false,
            },
            None => false,
        };
        let timeout_ms = match input.get("timeout_ms") {
            Some(v) => match as_u64(v) {
                Some(n) => n,
                None => 30_000,
            },
            None => 30_000,
        };
        Ok(OutputRequest { task_id, block, timeout_ms })
    }

    /// Teammates have no background tasks.
    pub fn available_for(&self, kind: AgentKind) -> (r: bool)
        ensures
            r == (kind != AgentKind::Teammate),
    {
        kind != AgentKind::Teammate
    }
}

impl TaskStopTool {
    pub fn name(&self) -> (r: &'static str)
        ensures
            r@ == "task_stop"@,
    {
        "task_stop"
    }

    pub fn description(&self) -> (r: &'static str)
        ensures
            r@
                == "Stop a running background task by cancelling it and killing its process tree."@,
    {
        "Stop a running background task by cancelling it and killing its process tree."
    }

    pub fn input_schema(&self) -> (r: Json)
        ensures
            r@ == schema_v(
                seq![("task_id"@, typed_v("string"@))],
                seq![JsonV::Text("task_id"@)],
            ),
    {
        let mut properties: Vec<(String, Json)> = Vec::new();
        put(&mut properties, "task_id", typed("string"));
        let mut required: Vec<Json> = Vec::new();
        put_text(&mut required, "task_id");
        assert(fields_view(properties@) =~= seq![("task_id"@, typed_v("string"@))]);
        assert(list_view(required@) =~= seq![JsonV::Text("task_id"@)]);
        schema(properties, required)
    }

    /// Nothing about the call needs approval.
    pub fn check_permission(&self, _input: &Json) -> (r: PermissionCheck)
        ensures
            r is Pass,
    {
        PermissionCheck::Pass
    }

    /// The answer to the call, and whether the task's process is to be killed.
    pub fn execute(&self, manager: &BackgroundManager, input: &Json) -> (r: StopReply)
        ensures
            match text_field(input@, "task_id"@) {
                None => r.message@ == "Error: task_id required"@ && !r.signal,
                Some(id) => match find_task(manager@.tasks, id) {
                    None => r.message@ == "Error: task "@ + id + " not found"@ && !r.signal,
                    Some(t) => if t.status == TaskStatus::Running {
                        r.message@ == "[Stopped "@ + id + "]"@ && r.signal
                    } else {
                        r.message@ == "Task "@ + id + " already "@ + status_text(t.status)
                            && !r.signal
                    },
                },
            },
    {
        match input.str_field("task_id") {
            None => StopReply { message: owned("Error: task_id required"), signal: false },
            Some(id) => manager.stop(id),
        }
    }

    /// Teammates have no background tasks.
    pub fn available_for(&self, kind: AgentKind) -> (r: bool)
        ensures
            r == (kind != AgentKind::Teammate),
    {
        kind != AgentKind::Teammate
    }
}

} // verus!

//! The registry of background tasks: what runs, what has ended and waits to be told, and the texts
//! that tell of it. The process itself is run elsewhere and reports here.

use vstd::prelude::*;

use crate::background_tasks::task::{
    status_text, status_word, tasks_view, BackgroundTask, TaskStatus, TaskV,
};
use crate::domain::message::{
    blocks_view, messages_view, BlockV, ContentBlock, Message, MessageV, Role,
};
use crate::random::random_draws;
use crate::schedule_laws::lemma_collects_the_ready;
use crate::text::{
    bytes_prefix, concat2, concat3, decimal, decimal_u64, first_chars, hex8, hex_digits, join_path,
    owned, path_in, signed, signed_i32, str_eq, take_bytes, take_chars, texts, trim, trimmed,
};

verus! {

broadcast use vstd::string::group_string_axioms;

/// Max concurrent background tasks.
pub const MAX_CONCURRENT: usize = 8;

/// Background command timeout (seconds).
pub const BG_TIMEOUT_SECS: u64 = 120;

/// Byte budget for output that is written and read back.
pub const MAX_OUTPUT_BYTES: usize = 50_000;

/// How many characters of the output the summary of a notification holds.
pub const SUMMARY_CHARS: usize = 500;

/// How many ids are tried for a new task.
pub const MAX_ID_RETRIES: usize = 100;

/// The state of the registry.
#[verifier::ext_equal]
pub struct BackgroundV {
    /// The tasks that were not told of yet. No two tasks of a manager have the same id: see
    /// [`BackgroundManager::ids`].
    pub tasks: Seq<TaskV>,
    /// The ids of the tasks that have ended, in the order in which they did.
    pub ready: Seq<Seq<char>>,
    pub output_dir: Seq<char>,
    pub timeout_secs: u64,
}

/// Background task manager.
#[derive(Debug)]
pub struct BackgroundManager {
    tasks: Vec<BackgroundTask>,
    ready: Vec<String>,
    output_dir: String,
    timeout_secs: u64,
}

impl View for BackgroundManager {
    type V = BackgroundV;

    closed spec fn view(&self) -> BackgroundV {
        BackgroundV {
            tasks: tasks_view(self.tasks@),
            ready: texts(self.ready@),
            output_dir: self.output_dir@,
            timeout_secs: self.timeout_secs,
        }
    }
}

/// The ids of the tasks.
pub open spec fn task_ids(tasks: Seq<TaskV>) -> Seq<Seq<char>> {
    tasks.map_values(|t: TaskV| t.id)
}

/// No id occurs twice.
pub open spec fn distinct_tasks(tasks: Seq<TaskV>) -> bool {
    forall|i: int, j: int|
        0 <= i < j < tasks.len() ==> (#[trigger] tasks[i]).id != (#[trigger] tasks[j]).id
}

/// How many of the tasks run.
pub open spec fn running_count(tasks: Seq<TaskV>) -> nat
    decreases tasks.len(),
{
    if tasks.len() == 0 {
        0
    } else {
        running_count(tasks.drop_last()) + if tasks.last().status == TaskStatus::Running {
            1nat
        } else {
            0
        }
    }
}

/// The first task with the id.
pub open spec fn find_task(tasks: Seq<TaskV>, id: Seq<char>) -> Option<TaskV>
    decreases tasks.len(),
{
    if tasks.len() == 0 {
        None
    } else if tasks[0].id == id {
        Some(tasks[0])
    } else {
        find_task(tasks.skip(1), id)
    }
}

/// The tasks without those of the id.
pub open spec fn without_task(tasks: Seq<TaskV>, id: Seq<char>) -> Seq<TaskV>
    decreases tasks.len(),
{
    if tasks.len() == 0 {
        Seq::empty()
    } else {
        let rest = without_task(tasks.drop_last(), id);
        if tasks.last().id == id {
            rest
        } else {
            rest.push(tasks.last())
        }
    }
}

/// The id that a random number gives.
pub open spec fn bg_id(n: u32) -> Seq<char> {
    "bg_"@ + hex_digits(n as nat, 8)
}

/// The first id, of those that the random numbers give, that no task has.
pub open spec fn free_bg_id(tasks: Seq<TaskV>, draws: Seq<u32>) -> Option<Seq<char>>
    decreases draws.len(),
{
    if draws.len() == 0 {
        None
    } else if !task_ids(tasks).contains(bg_id(draws[0])) {
        Some(bg_id(draws[0]))
    } else {
        free_bg_id(tasks, draws.skip(1))
    }
}

/// What starting a command does where the random numbers are `draws`: the state after it, and the id
/// or the reason why there is none.
pub open spec fn started(
    state: BackgroundV,
    command: Seq<char>,
    call_id: Seq<char>,
    started_at: u64,
    draws: Seq<u32>,
) -> (BackgroundV, Result<Seq<char>, Seq<char>>) {
    if trim(command).len() == 0 {
        (state, Err("Error: empty command"@))
    } else if running_count(state.tasks) >= MAX_CONCURRENT {
        (
            state,
            Err(
                "Error: too many concurrent background tasks ("@ + decimal(MAX_CONCURRENT as nat)
                    + "). Wait for some to finish via TaskOutput."@,
            ),
        )
    } else {
        match free_bg_id(state.tasks, draws) {
            None => (state, Err("Error: failed to allocate task id"@)),
            Some(id) => (
                BackgroundV {
                    tasks: state.tasks.push(
                        TaskV {
                            id,
                            command: trim(command),
                            status: TaskStatus::Running,
                            call_id,
                            started_at,
                            output_file: path_in(state.output_dir, id + ".log"@),
                            exit_code: None,
                        },
                    ),
                    ..state
                },
                Ok(id),
            ),
        }
    }
}

/// The outcome of starting a command, by the views.
pub open spec fn start_view(r: Result<String, String>) -> Result<Seq<char>, Seq<char>> {
    match r {
        Ok(id) => Ok(id@),
        Err(e) => Err(e@),
    }
}

/// The task of the id has ended.
pub open spec fn ended(t: TaskV, id: Seq<char>, status: TaskStatus, exit_code: Option<i32>) -> TaskV {
    if t.id == id {
        TaskV { status, exit_code, ..t }
    } else {
        t
    }
}

/// The tasks after the one of the id has ended.
pub open spec fn ended_tasks(
    tasks: Seq<TaskV>,
    id: Seq<char>,
    status: TaskStatus,
    exit_code: Option<i32>,
) -> Seq<TaskV> {
    tasks.map_values(|t: TaskV| ended(t, id, status, exit_code))
}

/// Taking the ended tasks: the tasks that are left, and those that were taken.
pub open spec fn collected(tasks: Seq<TaskV>, ready: Seq<Seq<char>>) -> (Seq<TaskV>, Seq<TaskV>)
    decreases ready.len(),
{
    if ready.len() == 0 {
        (tasks, Seq::empty())
    } else {
        let (left, taken) = collected(tasks, ready.drop_last());
        match find_task(left, ready.last()) {
            Some(t) => (without_task(left, ready.last()), taken.push(t)),
            None => (left, taken),
        }
    }
}

/// The exit code in words.
pub open spec fn exit_text(code: Option<i32>) -> Seq<char> {
    match code {
        Some(c) => signed(c as int),
        None => "none"@,
    }
}

fn exit_word(code: Option<i32>) -> (r: String)
    ensures
        r@ == exit_text(code),
{
    match code {
        Some(c) => signed_i32(c),
        None => owned("none"),
    }
}

/// The notification of an ended task, where `contents` is what its output file holds, if it could be
/// read.
pub open spec fn notification(t: TaskV, contents: Option<Seq<char>>) -> Seq<char> {
    let summary = match contents {
        Some(s) => first_chars(trim(s), SUMMARY_CHARS as int),
        None => "(output unavailable)"@,
    };
    "<task_notification>\n  <task_id>"@ + t.id + "</task_id>\n  <status>"@ + status_text(t.status)
        + "</status>\n  <command>"@ + t.command + "</command>\n  <exit_code>"@ + exit_text(
        t.exit_code,
    ) + "</exit_code>\n  <summary>"@ + summary + "</summary>\n</task_notification>"@
}

/// The notification of an ended task, where `contents` is what its output file holds, if it could be
/// read.
pub fn format_notification(task: &BackgroundTask, contents: Option<&str>) -> (r: String)
    ensures
        r@ == notification(
            task@,
            match contents {
                Some(s) => Some(s@),
                None => None,
            },
        ),
{
    let summary = match contents {
        Some(s) => take_chars(trimmed(s).as_str(), SUMMARY_CHARS),
        None => owned("(output unavailable)"),
    };
    let a = concat3(
        "<task_notification>\n  <task_id>",
        task.id.as_str(),
        "</task_id>\n  <status>",
    );
    let b = concat3(a.as_str(), status_word(task.status), "</status>\n  <command>");
    let c = concat3(b.as_str(), task.command.as_str(), "</command>\n  <exit_code>");
    let d = concat3(c.as_str(), exit_word(task.exit_code).as_str(), "</exit_code>\n  <summary>");
    concat3(d.as_str(), summary.as_str(), "</summary>\n</task_notification>")
}

/// What the model reads of a task, where `contents` is what its output file holds.
pub open spec fn output_text(t: TaskV, contents: Seq<char>) -> Seq<char> {
    "task_id: "@ + t.id + "\nstatus: "@ + status_text(t.status) + "\ncommand: "@ + t.command
        + "\nexit_code: "@ + exit_text(t.exit_code) + "\noutput:\n"@ + bytes_prefix(
        trim(contents),
        MAX_OUTPUT_BYTES as nat,
    )
}

/// How the process of a background task came to an end.
#[derive(Debug)]
pub enum WorkerEnd {
    /// It could not be started.
    SpawnFailed(String),
    /// It was killed on request.
    Cancelled,
    /// It was killed after so many seconds.
    TimedOut { seconds: u64 },
    /// It ended.
    Exited { code: Option<i32>, stdout: String, stderr: String },
    /// It could not be waited for.
    WaitFailed(String),
    /// The worker that ran it crashed.
    Panicked,
}

/// What a command's output comes to.
pub open spec fn command_output(stdout: Seq<char>, stderr: Seq<char>) -> Seq<char> {
    let body = trim(stdout + "\n"@ + stderr);
    if body.len() == 0 {
        "(no output)"@
    } else {
        bytes_prefix(body, MAX_OUTPUT_BYTES as nat)
    }
}

/// The status, the exit code and the text of the output file for the end of a process.
pub open spec fn worker_report(end: WorkerEnd) -> (TaskStatus, Option<i32>, Seq<char>) {
    match end {
        WorkerEnd::SpawnFailed(e) => (TaskStatus::Failed, None, "Error: spawn failed: "@ + e@),
        WorkerEnd::Cancelled => (TaskStatus::Cancelled, None, "Cancelled by TaskStop"@),
        WorkerEnd::TimedOut { seconds } => (
            TaskStatus::Failed,
            None,
            "Error: Timeout ("@ + decimal(seconds as nat) + "s)"@,
        ),
        WorkerEnd::Exited { code, stdout, stderr } => (
            if code == Some(0i32) {
                TaskStatus::Completed
            } else {
                TaskStatus::Failed
            },
            code,
            command_output(stdout@, stderr@),
        ),
        WorkerEnd::WaitFailed(e) => (TaskStatus::Failed, None, "Error: wait failed: "@ + e@),
        WorkerEnd::Panicked => (TaskStatus::Failed, None, "Error: worker panicked"@),
    }
}

/// The status, the exit code and the text of the output file for the end of a process.
pub fn worker_result(end: &WorkerEnd) -> (r: (TaskStatus, Option<i32>, String))
    ensures
        (r.0, r.1, r.2@) == worker_report(*end),
{
    match end {
        WorkerEnd::SpawnFailed(e) => (
            TaskStatus::Failed,
            None,
            concat2("Error: spawn failed: ", e.as_str()),
        ),
        WorkerEnd::Cancelled => (TaskStatus::Cancelled, None, owned("Cancelled by TaskStop")),
        WorkerEnd::TimedOut { seconds } => (
            TaskStatus::Failed,
            None,
            concat3("Error: Timeout (", decimal_u64(*seconds).as_str(), "s)"),
        ),
        WorkerEnd::Exited { code, stdout, stderr } => {
            let status = match code {
                Some(c) => if *c == 0 {
                    TaskStatus::Completed
                } else {
                    TaskStatus::Failed
                },
                None => TaskStatus::Failed,
            };
            let body = trimmed(concat3(stdout.as_str(), "\n", stderr.as_str()).as_str());
            let text = if crate::text::char_count(body.as_str()) == 0 {
                owned("(no output)")
            } else {
                take_bytes(body.as_str(), MAX_OUTPUT_BYTES)
            };
            (status, *code, text)
        },
        WorkerEnd::WaitFailed(e) => (
            TaskStatus::Failed,
            None,
            concat2("Error: wait failed: ", e.as_str()),
        ),
        WorkerEnd::Panicked => (TaskStatus::Failed, None, owned("Error: worker panicked")),
    }
}

fn find_index(tasks: &[BackgroundTask], id: &str) -> (r: Option<usize>)
    ensures
        match r {
            Some(k) => k < tasks@.len() && tasks@[k as int].id@ == id@ && find_task(
                tasks_view(tasks@),
                id@,
            ) == Some(tasks@[k as int]@) && task_ids(tasks_view(tasks@)).contains(id@),
            None => find_task(tasks_view(tasks@), id@) is None && !task_ids(
                tasks_view(tasks@),
            ).contains(id@),
        },
{
    let ghost all = tasks_view(tasks@);
    assert(all.skip(0) =~= all);
    let mut i: usize = 0;
    while i < tasks.len()
        invariant
            i <= tasks@.len(),
            all == tasks_view(tasks@),
            find_task(all, id@) == find_task(all.skip(i as int), id@),
            forall|k: int| 0 <= k < i ==> tasks@[k].id@ != id@,
        decreases tasks@.len() - i,
    {
        if str_eq(tasks[i].id.as_str(), id) {
            assert(task_ids(all)[i as int] == id@);
            return Some(i);
        }
        assert(all.skip(i as int).skip(1) =~= all.skip(i + 1));
        i += 1;
    }
    None
}

fn drop_task(tasks: &[BackgroundTask], id: &str) -> (r: Vec<BackgroundTask>)
    ensures
        tasks_view(r@) == without_task(tasks_view(tasks@), id@),
{
    let ghost all = tasks_view(tasks@);
    let mut out: Vec<BackgroundTask> = Vec::new();
    assert(tasks_view(out@) =~= Seq::empty());
    let mut i: usize = 0;
    while i < tasks.len()
        invariant
            i <= tasks@.len(),
            all == tasks_view(tasks@),
            tasks_view(out@) == without_task(all.take(i as int), id@),
        decreases tasks@.len() - i,
    {
        let ghost before = tasks_view(out@);
        assert(all.take(i + 1).drop_last() =~= all.take(i as int));
        assert(all.take(i + 1).last() == tasks@[i as int]@);
        if !str_eq(tasks[i].id.as_str(), id) {
            out.push(tasks[i].dup());
            assert(tasks_view(out@) =~= before.push(tasks@[i as int]@));
        }
        i += 1;
    }
    assert(all.take(tasks@.len() as int) =~= all);
    out
}

/// What is said to a request to stop a task, and whether its process is to be killed.
#[derive(Debug)]
pub struct StopReply {
    pub message: String,
    pub signal: bool,
}

impl BackgroundManager {
    #[verifier::type_invariant]
    spec fn ids_apart(self) -> bool {
        distinct_tasks(tasks_view(self.tasks@))
    }

    /// A registry whose commands write their output into the directory.
    pub fn new(output_dir: &str) -> (r: Self)
        ensures
            r@ == (BackgroundV {
                tasks: Seq::empty(),
                ready: Seq::empty(),
                output_dir: output_dir@,
                timeout_secs: BG_TIMEOUT_SECS,
            }),
    {
        BackgroundManager::with_timeout(output_dir, BG_TIMEOUT_SECS)
    }

    /// A registry with another timeout.
    pub fn with_timeout(output_dir: &str, timeout_secs: u64) -> (r: Self)
        ensures
            r@ == (BackgroundV {
                tasks: Seq::empty(),
                ready: Seq::empty(),
                output_dir: output_dir@,
                timeout_secs,
            }),
    {
        let r = BackgroundManager {
            tasks: Vec::new(),
            ready: Vec::new(),
            output_dir: owned(output_dir),
            timeout_secs,
        };
        assert(r@.tasks =~= Seq::empty());
        assert(r@.ready =~= Seq::empty());
        r
    }

    /// The number of seconds after which a command is killed.
    pub fn timeout_secs(&self) -> (r: u64)
        ensures
            r == self@.timeout_secs,
    {
        self.timeout_secs
    }

    /// How many tasks run.
    pub fn running_count(&self) -> (r: usize)
        ensures
            r == running_count(self@.tasks),
    {
        let ghost all = tasks_view(self.tasks@);
        let mut n: usize = 0;
        let mut i: usize = 0;
        while i < self.tasks.len()
            invariant
                i <= self.tasks@.len(),
                all == tasks_view(self.tasks@),
                n <= i,
                n == running_count(all.take(i as int)),
            decreases self.tasks@.len() - i,
        {
            assert(all.take(i + 1).drop_last() =~= all.take(i as int));
            assert(all.take(i + 1).last() == self.tasks@[i as int]@);
            if self.tasks[i].status == TaskStatus::Running {
                n += 1;
            }
            i += 1;
        }
        assert(all.take(self.tasks@.len() as int) =~= all);
        n
    }

    /// The ids of the tasks that were not told of yet, no id twice.
    pub fn ids(&self) -> (r: Vec<String>)
        ensures
            texts(r@) == task_ids(self@.tasks),
            texts(r@).no_duplicates(),
    {
        proof {
            use_type_invariant(&*self);
        }
        let ghost goal = task_ids(self@.tasks);
        let mut out: Vec<String> = Vec::new();
        let mut i: usize = 0;
        while i < self.tasks.len()
            invariant
                i <= self.tasks@.len(),
                goal == task_ids(self@.tasks),
                texts(out@) == goal.take(i as int),
            decreases self.tasks@.len() - i,
        {
            let ghost before = texts(out@);
            out.push(self.tasks[i].id.clone());
            assert(texts(out@) =~= before.push(goal[i as int]));
            assert(goal.take(i + 1) =~= before.push(goal[i as int]));
            i += 1;
        }
        assert(goal.take(self.tasks@.len() as int) =~= goal);
        assert forall|a: int, b: int|
            0 <= a < goal.len() && 0 <= b < goal.len() && a != b implies goal[a] != goal[b] by {
            if a < b {
                assert(self@.tasks[a].id != self@.tasks[b].id);
            } else {
                assert(self@.tasks[b].id != self@.tasks[a].id);
            }
        }
        out
    }

    /// Whether a task runs.
    pub fn has_running(&self) -> (r: bool)
        ensures
            r == (running_count(self@.tasks) > 0),
    {
        self.running_count() > 0
    }

    /// The first id, of those that the random numbers give, that no task has.
    pub fn generate_id(&self, draws: &[u32]) -> (r: Option<String>)
        ensures
            r.deep_view() == free_bg_id(self@.tasks, draws@),
    {
        assert(draws@.skip(0) =~= draws@);
        let mut i: usize = 0;
        while i < draws.len()
            invariant
                i <= draws@.len(),
                free_bg_id(self@.tasks, draws@) == free_bg_id(self@.tasks, draws@.skip(i as int)),
            decreases draws@.len() - i,
        {
            let id = concat2("bg_", hex8(draws[i]).as_str());
            if find_index(self.tasks.as_slice(), id.as_str()).is_none() {
                return Some(id);
            }
            assert(draws@.skip(i as int).skip(1) =~= draws@.skip(i + 1));
            i += 1;
        }
        None
    }

    /// Registers a command under the first free id of those that the random numbers give.
    pub fn start_with(&mut self, command: &str, call_id: &str, started_at: u64, draws: &[u32]) -> (r:
        Result<String, String>)
        ensures
            started(old(self)@, command@, call_id@, started_at, draws@) == (
                final(self)@,
                start_view(r),
            ),
    {
        let command = trimmed(command);
        if crate::text::char_count(command.as_str()) == 0 {
            return Err(owned("Error: empty command"));
        }
        if self.running_count() >= MAX_CONCURRENT {
            return Err(
                concat3(
                    "Error: too many concurrent background tasks (",
                    decimal_u64(MAX_CONCURRENT as u64).as_str(),
                    "). Wait for some to finish via TaskOutput.",
                ),
            );
        }
        proof {
            lemma_free_bg_id(self@.tasks, draws@);
        }
        match self.generate_id(draws) {
            None => Err(owned("Error: failed to allocate task id")),
            Some(id) => {
                let file = concat2(id.as_str(), ".log");
                let task = BackgroundTask {
                    id: id.clone(),
                    command,
                    status: TaskStatus::Running,
                    call_id: owned(call_id),
                    started_at,
                    output_file: join_path(self.output_dir.as_str(), file.as_str()),
                    exit_code: None,
                };
                let ghost before = tasks_view(self.tasks@);
                proof {
                    use_type_invariant(&*self);
                    lemma_push_keeps_apart(before, task@);
                }
                let mut tasks: Vec<BackgroundTask> = Vec::new();
                std::mem::swap(&mut tasks, &mut self.tasks);
                tasks.push(task);
                assert(tasks_view(tasks@) =~= before.push(task@));
                self.tasks = tasks;
                Ok(id)
            },
        }
    }

    /// Registers a command under a random id that no other task has. The process is to be run, and
    /// its end reported.
    pub fn start(&mut self, command: &str, call_id: &str, started_at: u64) -> (r: Result<
        String,
        String,
    >)
        ensures
            exists|draws: Seq<u32>|
                draws.len() == MAX_ID_RETRIES && #[trigger] started(
                    old(self)@,
                    command@,
                    call_id@,
                    started_at,
                    draws,
                ) == (final(self)@, start_view(r)),
            trim(command@).len() > 0 && old(self)@.tasks.len() == 0 ==> r is Ok,
    {
        let draws = random_draws(MAX_ID_RETRIES);
        let ghost before = self@;
        let r = self.start_with(command, call_id, started_at, draws.as_slice());
        assert(started(before, command@, call_id@, started_at, draws@) == (self@, start_view(r)));
        assert(before.tasks.len() == 0 ==> !task_ids(before.tasks).contains(bg_id(draws@[0])));
        r
    }

    /// The output file of the task.
    pub fn output_file(&self, task_id: &str) -> (r: Option<String>)
        ensures
            r.deep_view() == match find_task(self@.tasks, task_id@) {
                Some(t) => Some(t.output_file),
                None => None,
            },
    {
        match find_index(self.tasks.as_slice(), task_id) {
            Some(k) => Some(self.tasks[k].output_file.clone()),
            None => None,
        }
    }

    /// The process of the task has ended.
    pub fn finalize(&mut self, id: &str, status: TaskStatus, exit_code: Option<i32>)
        ensures
            final(self)@ == (BackgroundV {
                tasks: ended_tasks(old(self)@.tasks, id@, status, exit_code),
                ready: if task_ids(old(self)@.tasks).contains(id@) {
                    old(self)@.ready.push(id@)
                } else {
                    old(self)@.ready
                },
                ..old(self)@
            }),
            old(self)@.ready.is_prefix_of(final(self)@.ready),
            task_ids(old(self)@.tasks).contains(id@) ==> final(self)@.ready.contains(id@),
            final(self)@.tasks.len() == old(self)@.tasks.len(),
    {
        proof {
            let ready = self@.ready;
            assert(ready.push(id@).take(ready.len() as int) =~= ready);
            assert(ready.push(id@)[ready.len() as int] == id@);
            assert(ready.take(ready.len() as int) =~= ready);
        }
        proof {
            use_type_invariant(&*self);
            lemma_end_keeps_apart(self@.tasks, id@, status, exit_code);
        }
        let ghost all = tasks_view(self.tasks@);
        let ghost goal = ended_tasks(all, id@, status, exit_code);
        if find_index(self.tasks.as_slice(), id).is_some() {
            let ghost before = texts(self.ready@);
            let mut ready: Vec<String> = Vec::new();
            std::mem::swap(&mut ready, &mut self.ready);
            ready.push(owned(id));
            assert(texts(ready@) =~= before.push(id@));
            self.ready = ready;
        }
        let mut tasks: Vec<BackgroundTask> = Vec::new();
        std::mem::swap(&mut tasks, &mut self.tasks);
        let n: usize = tasks.len();
        let mut i: usize = 0;
        while i < n
            invariant
                i <= n,
                n == tasks@.len(),
                all.len() == n,
                goal == ended_tasks(all, id@, status, exit_code),
                forall|k: int| 0 <= k < i ==> (#[trigger] tasks@[k])@ == goal[k],
                forall|k: int| i <= k < n ==> (#[trigger] tasks@[k])@ == all[k],
            decreases n - i,
        {
            if str_eq(tasks[i].id.as_str(), id) {
                let mut copy = tasks[i].dup();
                copy.status = status;
                copy.exit_code = exit_code;
                tasks.set(i, copy);
            }
            i += 1;
        }
        assert(tasks_view(tasks@) =~= goal);
        self.tasks = tasks;
    }

    /// Takes the tasks that have ended out of the registry. Each is to be told of once, by
    /// [`format_notification`].
    pub fn collect(&mut self) -> (r: Vec<BackgroundTask>)
        ensures
            collected(old(self)@.tasks, old(self)@.ready) == (final(self)@.tasks, tasks_view(r@)),
            final(self)@ == (BackgroundV {
                tasks: final(self)@.tasks,
                ready: Seq::empty(),
                ..old(self)@
            }),
            forall|k: int|
                0 <= k < old(self)@.ready.len() && task_ids(old(self)@.tasks).contains(
                    #[trigger] old(self)@.ready[k],
                ) ==> task_ids(tasks_view(r@)).contains(old(self)@.ready[k]),
            forall|t: TaskV| #[trigger]
                old(self)@.tasks.contains(t) && !old(self)@.ready.contains(t.id)
                    ==> final(self)@.tasks.contains(t),
    {
        proof {
            lemma_collects_the_ready(self@.tasks, self@.ready);
        }
        proof {
            use_type_invariant(&*self);
        }
        let mut drained: Vec<String> = Vec::new();
        std::mem::swap(&mut drained, &mut self.ready);
        assert(texts(self.ready@) =~= Seq::empty());
        let ghost ids = texts(drained@);
        let ghost all = tasks_view(self.tasks@);
        let mut tasks: Vec<BackgroundTask> = Vec::new();
        std::mem::swap(&mut tasks, &mut self.tasks);
        let mut out: Vec<BackgroundTask> = Vec::new();
        assert(tasks_view(out@) =~= Seq::empty());
        let mut i: usize = 0;
        while i < drained.len()
            invariant
                i <= drained@.len(),
                ids == texts(drained@),
                distinct_tasks(tasks_view(tasks@)),
                collected(all, ids.take(i as int)) == (tasks_view(tasks@), tasks_view(out@)),
            decreases drained@.len() - i,
        {
            let ghost before = tasks_view(out@);
            let id = drained[i].as_str();
            assert(ids.take(i + 1).drop_last() =~= ids.take(i as int));
            assert(ids.take(i + 1).last() == id@);
            match find_index(tasks.as_slice(), id) {
                Some(k) => {
                    out.push(tasks[k].dup());
                    assert(tasks_view(out@) =~= before.push(tasks@[k as int]@));
                    proof {
                        lemma_without_keeps_apart(tasks_view(tasks@), id@);
                    }
                    tasks = drop_task(tasks.as_slice(), id);
                },
                None => {},
            }
            i += 1;
        }
        assert(ids.take(drained@.len() as int) =~= ids);
        self.tasks = tasks;
        out
    }

    /// Puts notifications behind the messages, as one user message with a text block for each.
    pub fn collect_and_inject(messages: &mut Vec<Message>, notifications: Vec<String>) -> (r: Option<
        usize,
    >)
        ensures
            if notifications@.len() == 0 {
                r is None && final(messages)@ == old(messages)@
            } else {
                r == Some(notifications@.len() as usize) && messages_view(final(messages)@)
                    == messages_view(old(messages)@).push(
                    MessageV { role: Role::User, content: notice_blocks(texts(notifications@)) },
                )
            },
            notifications@.len() > 0 ==> {
                let m = messages_view(final(messages)@).last();
                &&& m.role == Role::User
                &&& m.content.len() == notifications@.len()
                &&& forall|i: int|
                    0 <= i < notifications@.len() ==> #[trigger] m.content[i] == (BlockV::Text {
                        text: notifications@[i]@,
                    })
            },
    {
        let count: usize = notifications.len();
        if count == 0 {
            return None;
        }
        let ghost goal = notice_blocks(texts(notifications@));
        let mut blocks: Vec<ContentBlock> = Vec::new();
        let mut i: usize = 0;
        while i < count
            invariant
                i <= count,
                count == notifications@.len(),
                goal == notice_blocks(texts(notifications@)),
                blocks_view(blocks@) == goal.take(i as int),
            decreases count - i,
        {
            let ghost before = blocks_view(blocks@);
            blocks.push(ContentBlock::text(notifications[i].as_str()));
            assert(blocks_view(blocks@) =~= before.push(goal[i as int]));
            assert(goal.take(i + 1) =~= before.push(goal[i as int]));
            i += 1;
        }
        assert(goal.take(count as int) =~= goal);
        let ghost before = messages_view(messages@);
        let m = Message::user_blocks(blocks);
        messages.push(m);
        assert(messages_view(messages@) =~= before.push(m@));
        Some(count)
    }

    /// Whether a wait for the task is over: it runs no more, or the time is up.
    pub fn wait_over(&self, task_id: &str, time_is_up: bool) -> (r: bool)
        ensures
            r == (time_is_up || match find_task(self@.tasks, task_id@) {
                Some(t) => t.status != TaskStatus::Running,
                None => true,
            }),
    {
        match find_index(self.tasks.as_slice(), task_id) {
            Some(k) => time_is_up || self.tasks[k].status != TaskStatus::Running,
            None => true,
        }
    }

    /// The status of the task and its output, where `contents` is what its output file holds.
    pub fn output(&self, task_id: &str, contents: &str) -> (r: String)
        ensures
            r@ == match find_task(self@.tasks, task_id@) {
                Some(t) => output_text(t, contents@),
                None => "Error: task "@ + task_id@ + " not found"@,
            },
    {
        match find_index(self.tasks.as_slice(), task_id) {
            Some(k) => {
                let t = &self.tasks[k];
                let body = take_bytes(trimmed(contents).as_str(), MAX_OUTPUT_BYTES);
                let a = concat3("task_id: ", task_id, "\nstatus: ");
                let b = concat3(a.as_str(), status_word(t.status), "\ncommand: ");
                let c = concat3(b.as_str(), t.command.as_str(), "\nexit_code: ");
                let d = concat3(c.as_str(), exit_word(t.exit_code).as_str(), "\noutput:\n");
                concat2(d.as_str(), body.as_str())
            },
            None => concat3("Error: task ", task_id, " not found"),
        }
    }

    /// The answer to a request to stop the task. Only a running task is stopped.
    pub fn stop(&self, task_id: &str) -> (r: StopReply)
        ensures
            r.message@ == match find_task(self@.tasks, task_id@) {
                None => "Error: task "@ + task_id@ + " not found"@,
                Some(t) => if t.status == TaskStatus::Running {
                    "[Stopped "@ + task_id@ + "]"@
                } else {
                    "Task "@ + task_id@ + " already "@ + status_text(t.status)
                },
            },
            r.signal == (find_task(self@.tasks, task_id@) matches Some(t) && t.status
                == TaskStatus::Running),
    {
        match find_index(self.tasks.as_slice(), task_id) {
            None => StopReply {
                message: concat3("Error: task ", task_id, " not found"),
                signal: false,
            },
            Some(k) => {
                let status = self.tasks[k].status;
                if status == TaskStatus::Running {
                    StopReply { message: concat3("[Stopped ", task_id, "]"), signal: true }
                } else {
                    let head = concat3("Task ", task_id, " already ");
                    StopReply {
                        message: concat2(head.as_str(), status_word(status)),
                        signal: false,
                    }
                }
            },
        }
    }
}

/// A text block for each notification.
pub open spec fn notice_blocks(notifications: Seq<Seq<char>>) -> Seq<BlockV> {
    notifications.map_values(|n: Seq<char>| BlockV::Text { text: n })
}

// ---- laws ----

proof fn lemma_push_keeps_apart(tasks: Seq<TaskV>, task: TaskV)
    requires
        distinct_tasks(tasks),
        !task_ids(tasks).contains(task.id),
    ensures
        distinct_tasks(tasks.push(task)),
{
    let after = tasks.push(task);
    assert forall|i: int, j: int| 0 <= i < j < after.len() implies (#[trigger] after[i]).id != (
    #[trigger] after[j]).id by {
        assert(task_ids(tasks)[i] == tasks[i].id);
        if j < tasks.len() {
            assert(tasks[i].id != tasks[j].id);
        }
    }
}

proof fn lemma_end_keeps_apart(
    tasks: Seq<TaskV>,
    id: Seq<char>,
    status: TaskStatus,
    exit_code: Option<i32>,
)
    requires
        distinct_tasks(tasks),
    ensures
        distinct_tasks(ended_tasks(tasks, id, status, exit_code)),
{
    let after = ended_tasks(tasks, id, status, exit_code);
    assert forall|i: int, j: int| 0 <= i < j < after.len() implies (#[trigger] after[i]).id != (
    #[trigger] after[j]).id by {
        assert(tasks[i].id != tasks[j].id);
    }
}

proof fn lemma_without_keeps_apart(tasks: Seq<TaskV>, id: Seq<char>)
    requires
        distinct_tasks(tasks),
    ensures
        distinct_tasks(without_task(tasks, id)),
    decreases tasks.len(),
{
    if tasks.len() > 0 {
        let front = tasks.drop_last();
        let last = tasks.last();
        assert forall|i: int, j: int| 0 <= i < j < front.len() implies (#[trigger] front[i]).id != (
        #[trigger] front[j]).id by {
            assert(tasks[i].id != tasks[j].id);
        }
        lemma_without_keeps_apart(front, id);
        lemma_without_task(front, id, last.id);
        if last.id != id {
            assert(!task_ids(front).contains(last.id)) by {
                if task_ids(front).contains(last.id) {
                    let k = choose|k: int|
                        0 <= k < task_ids(front).len() && task_ids(front)[k] == last.id;
                    assert(tasks[k].id != tasks[tasks.len() - 1].id);
                }
            }
            lemma_push_keeps_apart(without_task(front, id), last);
        }
    }
}

proof fn lemma_free_bg_id(tasks: Seq<TaskV>, draws: Seq<u32>)
    ensures
        free_bg_id(tasks, draws) matches Some(id) ==> !task_ids(tasks).contains(id),
    decreases draws.len(),
{
    if draws.len() > 0 && task_ids(tasks).contains(bg_id(draws[0])) {
        lemma_free_bg_id(tasks, draws.skip(1));
    }
}

/// No operation gives two tasks the same id: starting a command, its end and taking the ended tasks
/// all keep the ids apart.
pub proof fn lemma_task_ids_stay_distinct(
    state: BackgroundV,
    command: Seq<char>,
    call_id: Seq<char>,
    started_at: u64,
    draws: Seq<u32>,
    id: Seq<char>,
    status: TaskStatus,
    exit_code: Option<i32>,
)
    requires
        distinct_tasks(state.tasks),
    ensures
        distinct_tasks(started(state, command, call_id, started_at, draws).0.tasks),
        distinct_tasks(ended_tasks(state.tasks, id, status, exit_code)),
        distinct_tasks(collected(state.tasks, state.ready).0),
{
    lemma_free_bg_id(state.tasks, draws);
    let after = started(state, command, call_id, started_at, draws);
    if after.1 is Ok {
        assert(after.0.tasks.drop_last() =~= state.tasks);
        lemma_push_keeps_apart(state.tasks, after.0.tasks.last());
        assert(state.tasks.push(after.0.tasks.last()) =~= after.0.tasks);
    }
    lemma_end_keeps_apart(state.tasks, id, status, exit_code);
    lemma_collected_keeps_apart(state.tasks, state.ready);
}

proof fn lemma_collected_keeps_apart(tasks: Seq<TaskV>, ready: Seq<Seq<char>>)
    requires
        distinct_tasks(tasks),
    ensures
        distinct_tasks(collected(tasks, ready).0),
    decreases ready.len(),
{
    if ready.len() > 0 {
        lemma_collected_keeps_apart(tasks, ready.drop_last());
        lemma_without_keeps_apart(collected(tasks, ready.drop_last()).0, ready.last());
    }
}

proof fn lemma_running_without(tasks: Seq<TaskV>, id: Seq<char>)
    ensures
        running_count(without_task(tasks, id)) <= running_count(tasks),
    decreases tasks.len(),
{
    if tasks.len() > 0 {
        let rest = without_task(tasks.drop_last(), id);
        lemma_running_without(tasks.drop_last(), id);
        assert(rest.push(tasks.last()).drop_last() =~= rest);
    }
}

/// No more than the allowed number of commands run at a time: starting respects the limit, and the
/// end of a command or taking the ended ones never raises the count.
pub proof fn lemma_concurrency_cap(
    state: BackgroundV,
    command: Seq<char>,
    call_id: Seq<char>,
    started_at: u64,
    draws: Seq<u32>,
    id: Seq<char>,
    status: TaskStatus,
    exit_code: Option<i32>,
)
    requires
        status != TaskStatus::Running,
    ensures
        running_count(state.tasks) <= MAX_CONCURRENT ==> running_count(
            started(state, command, call_id, started_at, draws).0.tasks,
        ) <= MAX_CONCURRENT,
        running_count(ended_tasks(state.tasks, id, status, exit_code)) <= running_count(
            state.tasks,
        ),
        running_count(collected(state.tasks, state.ready).0) <= running_count(state.tasks),
{
    let after = started(state, command, call_id, started_at, draws);
    if after.1 is Ok {
        assert(after.0.tasks.drop_last() =~= state.tasks);
    }
    lemma_ended_count(state.tasks, id, status, exit_code);
    lemma_collected_count(state.tasks, state.ready);
}

proof fn lemma_ended_count(
    tasks: Seq<TaskV>,
    id: Seq<char>,
    status: TaskStatus,
    exit_code: Option<i32>,
)
    requires
        status != TaskStatus::Running,
    ensures
        running_count(ended_tasks(tasks, id, status, exit_code)) <= running_count(tasks),
    decreases tasks.len(),
{
    if tasks.len() > 0 {
        let after = ended_tasks(tasks, id, status, exit_code);
        lemma_ended_count(tasks.drop_last(), id, status, exit_code);
        assert(after.drop_last() =~= ended_tasks(tasks.drop_last(), id, status, exit_code));
        assert(after.last() == ended(tasks.last(), id, status, exit_code));
    }
}

proof fn lemma_collected_count(tasks: Seq<TaskV>, ready: Seq<Seq<char>>)
    ensures
        running_count(collected(tasks, ready).0) <= running_count(tasks),
    decreases ready.len(),
{
    if ready.len() > 0 {
        lemma_collected_count(tasks, ready.drop_last());
        lemma_running_without(collected(tasks, ready.drop_last()).0, ready.last());
    }
}

proof fn lemma_without_task(tasks: Seq<TaskV>, id: Seq<char>, other: Seq<char>)
    ensures
        !task_ids(without_task(tasks, id)).contains(id),
        task_ids(without_task(tasks, id)).contains(other) ==> task_ids(tasks).contains(other),
    decreases tasks.len(),
{
    if tasks.len() > 0 {
        let front = tasks.drop_last();
        lemma_without_task(front, id, other);
        let rest = without_task(front, id);
        let after = without_task(tasks, id);
        assert forall|k: int| 0 <= k < task_ids(after).len() implies task_ids(after)[k] != id by {
            if k < rest.len() {
                assert(task_ids(rest)[k] == task_ids(after)[k]);
            }
        }
        if task_ids(after).contains(other) {
            let k = choose|k: int| 0 <= k < task_ids(after).len() && task_ids(after)[k] == other;
            if k < rest.len() {
                assert(task_ids(rest)[k] == other);
                let m = choose|m: int| 0 <= m < task_ids(front).len() && task_ids(front)[m] == other;
                assert(task_ids(tasks)[m] == other);
            } else {
                assert(task_ids(tasks)[tasks.len() - 1] == other);
            }
        }
    }
}

/// A task is told of once: what was taken is no longer registered, and taking again without a
/// further end gives nothing.
pub proof fn lemma_notified_once(tasks: Seq<TaskV>, ready: Seq<Seq<char>>)
    ensures
        forall|i: int|
            0 <= i < ready.len() ==> !task_ids(collected(tasks, ready).0).contains(
                #[trigger] ready[i],
            ),
        collected(collected(tasks, ready).0, Seq::<Seq<char>>::empty()).1 == Seq::<TaskV>::empty(),
        collected(collected(tasks, ready).0, ready).1 == Seq::<TaskV>::empty(),
{
    let left = collected(tasks, ready).0;
    lemma_taken_are_gone(tasks, ready);
    lemma_absent_gives_nothing(left, ready);
}

proof fn lemma_taken_are_gone(tasks: Seq<TaskV>, ready: Seq<Seq<char>>)
    ensures
        forall|i: int|
            0 <= i < ready.len() ==> !task_ids(collected(tasks, ready).0).contains(
                #[trigger] ready[i],
            ),
    decreases ready.len(),
{
    if ready.len() > 0 {
        let front = ready.drop_last();
        lemma_taken_are_gone(tasks, front);
        let left = collected(tasks, front).0;
        let after = collected(tasks, ready).0;
        lemma_find_task(left, ready.last());
        assert forall|i: int| 0 <= i < ready.len() implies !task_ids(after).contains(
            #[trigger] ready[i],
        ) by {
            lemma_without_task(left, ready.last(), ready[i]);
            if i < front.len() {
                assert(front[i] == ready[i]);
            }
        }
    }
}

proof fn lemma_find_task(tasks: Seq<TaskV>, id: Seq<char>)
    ensures
        task_ids(tasks).contains(id) <==> find_task(tasks, id) is Some,
        find_task(tasks, id) matches Some(t) ==> t.id == id,
    decreases tasks.len(),
{
    if tasks.len() > 0 {
        assert(task_ids(tasks)[0] == tasks[0].id);
        lemma_find_task(tasks.skip(1), id);
        if tasks[0].id != id {
            if task_ids(tasks).contains(id) {
                let k = choose|k: int| 0 <= k < task_ids(tasks).len() && task_ids(tasks)[k] == id;
                assert(task_ids(tasks.skip(1))[k - 1] == id);
            }
            if task_ids(tasks.skip(1)).contains(id) {
                let k = choose|k: int|
                    0 <= k < task_ids(tasks.skip(1)).len() && task_ids(tasks.skip(1))[k] == id;
                assert(task_ids(tasks)[k + 1] == id);
            }
        }
    }
}

proof fn lemma_absent_gives_nothing(tasks: Seq<TaskV>, ready: Seq<Seq<char>>)
    requires
        forall|i: int| 0 <= i < ready.len() ==> !task_ids(tasks).contains(#[trigger] ready[i]),
    ensures
        collected(tasks, ready) == (tasks, Seq::<TaskV>::empty()),
    decreases ready.len(),
{
    if ready.len() > 0 {
        let front = ready.drop_last();
        assert forall|i: int| 0 <= i < front.len() implies !task_ids(tasks).contains(
            #[trigger] front[i],
        ) by {
            assert(ready[i] == front[i]);
        }
        lemma_absent_gives_nothing(tasks, front);
        assert(!task_ids(tasks).contains(ready[ready.len() - 1]));
        lemma_find_task(tasks, ready.last());
    }
}

/// The end of a command reaches the agent: a task that ends is the last one taken, with the status
/// and the exit code that were reported, where nothing was waiting before.
pub proof fn lemma_end_is_told(
    tasks: Seq<TaskV>,
    id: Seq<char>,
    status: TaskStatus,
    exit_code: Option<i32>,
)
    requires
        task_ids(tasks).contains(id),
    ensures
        ({
            let taken = collected(ended_tasks(tasks, id, status, exit_code), seq![id]).1;
            &&& taken.len() == 1
            &&& taken[0].id == id
            &&& taken[0].status == status
            &&& taken[0].exit_code == exit_code
        }),
{
    let after = ended_tasks(tasks, id, status, exit_code);
    assert(task_ids(after) =~= task_ids(tasks));
    lemma_find_task(after, id);
    lemma_find_ended(tasks, id, status, exit_code);
    assert(seq![id].drop_last() =~= Seq::empty());
    reveal_with_fuel(collected, 2);
}

proof fn lemma_find_ended(
    tasks: Seq<TaskV>,
    id: Seq<char>,
    status: TaskStatus,
    exit_code: Option<i32>,
)
    ensures
        find_task(ended_tasks(tasks, id, status, exit_code), id) matches Some(t) ==> t.status
            == status && t.exit_code == exit_code && t.id == id,
    decreases tasks.len(),
{
    if tasks.len() > 0 {
        lemma_find_ended(tasks.skip(1), id, status, exit_code);
        assert(ended_tasks(tasks, id, status, exit_code).skip(1) =~= ended_tasks(
            tasks.skip(1),
            id,
            status,
            exit_code,
        ));
    }
}

} // verus!

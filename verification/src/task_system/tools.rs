//! The tools by which agents create, list, claim and complete tasks.

use vstd::prelude::*;

use crate::cron_scheduler::{input_text, text_input};
use crate::json::{
    array_of, field, fields_view, json_str, lemma_list_view, list_view, text_of, Json, JsonV,
};
use crate::task_system::store::{find_task, replaced, TaskStore};
use crate::task_system::task::{status_text, task_json, Task, TaskStatus, TaskV};
use crate::text::{
    concat2, concat3, debug_list, debug_texts, join, joined, list_contains, owned, str_eq, texts,
};
use crate::tools::{object, put, put_text, schema, schema_v, PermissionCheck};

verus! {

broadcast use vstd::string::group_string_axioms;

// ---- dependencies ----

/// The task of the id is there and completed.
pub open spec fn done(tasks: Seq<TaskV>, id: Seq<char>) -> bool {
    find_task(tasks, id) matches Some(t) && t.status == TaskStatus::Completed
}

/// Those of the ids whose task is missing or not completed.
pub open spec fn not_done(tasks: Seq<TaskV>, ids: Seq<Seq<char>>) -> Seq<Seq<char>>
    decreases ids.len(),
{
    if ids.len() == 0 {
        Seq::empty()
    } else {
        let rest = not_done(tasks, ids.drop_last());
        if done(tasks, ids.last()) {
            rest
        } else {
            rest.push(ids.last())
        }
    }
}

/// The tasks that the task still waits for.
pub open spec fn waits_for(tasks: Seq<TaskV>, t: TaskV) -> Seq<Seq<char>> {
    not_done(tasks, t.blocked_by)
}

/// The tasks that the task still waits for: missing or not completed.
pub fn incomplete_dependencies(store: &TaskStore, task: &Task) -> (r: Vec<String>)
    ensures
        texts(r@) == waits_for(store@, task@),
{
    let ghost ids = texts(task.blocked_by@);
    let mut out: Vec<String> = Vec::new();
    assert(texts(out@) =~= not_done(store@, ids.take(0)));
    let mut i: usize = 0;
    while i < task.blocked_by.len()
        invariant
            i <= task.blocked_by@.len(),
            ids == texts(task.blocked_by@),
            texts(out@) == not_done(store@, ids.take(i as int)),
        decreases task.blocked_by@.len() - i,
    {
        let ghost before = texts(out@);
        let id = &task.blocked_by[i];
        assert(ids.take(i + 1).drop_last() =~= ids.take(i as int));
        assert(ids.take(i + 1).last() == id@);
        let completed = match store.load(id.as_str()) {
            Some(t) => t.status == TaskStatus::Completed,
            None => false,
        };
        if !completed {
            out.push(id.clone());
            assert(texts(out@) =~= before.push(id@));
        }
        i += 1;
    }
    assert(ids.take(task.blocked_by@.len() as int) =~= ids);
    out
}

/// The task waits for others no more: it is pending, was made to wait, and all are completed.
pub open spec fn ready(tasks: Seq<TaskV>, t: TaskV) -> bool {
    t.status == TaskStatus::Pending && t.blocked_by.len() > 0 && waits_for(tasks, t).len() == 0
}

/// The ids of the tasks that wait for others no more.
pub open spec fn ready_ids(tasks: Seq<TaskV>, among: Seq<TaskV>) -> Seq<Seq<char>>
    decreases among.len(),
{
    if among.len() == 0 {
        Seq::empty()
    } else {
        let rest = ready_ids(tasks, among.drop_last());
        if ready(tasks, among.last()) {
            rest.push(among.last().id)
        } else {
            rest
        }
    }
}

/// The subjects of the tasks that wait for others no more and did before.
pub open spec fn unblocked(
    tasks: Seq<TaskV>,
    ready_before: Seq<Seq<char>>,
    among: Seq<TaskV>,
) -> Seq<Seq<char>>
    decreases among.len(),
{
    if among.len() == 0 {
        Seq::empty()
    } else {
        let rest = unblocked(tasks, ready_before, among.drop_last());
        if ready(tasks, among.last()) && !ready_before.contains(among.last().id) {
            rest.push(among.last().subject)
        } else {
            rest
        }
    }
}

fn is_ready(store: &TaskStore, task: &Task) -> (r: bool)
    ensures
        r == ready(store@, task@),
{
    let waits = incomplete_dependencies(store, task);
    assert(texts(waits@).len() == waits@.len());
    assert(texts(task.blocked_by@).len() == task.blocked_by@.len());
    task.status == TaskStatus::Pending && task.blocked_by.len() > 0 && waits.len() == 0
}

fn list_ready(store: &TaskStore) -> (r: Vec<String>)
    ensures
        texts(r@) == ready_ids(store@, store@),
{
    let ghost all = store@;
    let mut out: Vec<String> = Vec::new();
    assert(texts(out@) =~= ready_ids(all, all.take(0)));
    let n: usize = store.len();
    let mut i: usize = 0;
    while i < n
        invariant
            i <= n,
            n == store@.len(),
            all == store@,
            texts(out@) == ready_ids(all, all.take(i as int)),
        decreases n - i,
    {
        let ghost before = texts(out@);
        let task = store.at(i);
        assert(all.take(i + 1).drop_last() =~= all.take(i as int));
        assert(all.take(i + 1).last() == task@);
        if is_ready(store, task) {
            out.push(task.id.clone());
            assert(texts(out@) =~= before.push(task@.id));
        }
        i += 1;
    }
    assert(all.take(n as int) =~= all);
    out
}

fn list_unblocked(store: &TaskStore, ready_before: &[String]) -> (r: Vec<String>)
    ensures
        texts(r@) == unblocked(store@, texts(ready_before@), store@),
{
    let ghost all = store@;
    let ghost known = texts(ready_before@);
    let mut out: Vec<String> = Vec::new();
    assert(texts(out@) =~= unblocked(all, known, all.take(0)));
    let n: usize = store.len();
    let mut i: usize = 0;
    while i < n
        invariant
            i <= n,
            n == store@.len(),
            all == store@,
            known == texts(ready_before@),
            texts(out@) == unblocked(all, known, all.take(i as int)),
        decreases n - i,
    {
        let ghost before = texts(out@);
        let task = store.at(i);
        assert(all.take(i + 1).drop_last() =~= all.take(i as int));
        assert(all.take(i + 1).last() == task@);
        if is_ready(store, task) && !list_contains(ready_before, task.id.as_str()) {
            out.push(task.subject.clone());
            assert(texts(out@) =~= before.push(task@.subject));
        }
        i += 1;
    }
    assert(all.take(n as int) =~= all);
    out
}

// ---- claim and complete ----

/// Claiming a task: the tasks after it, and what the agent is answered. `missing` is what is said of a
/// task that cannot be read.
pub open spec fn claimed(
    tasks: Seq<TaskV>,
    id: Seq<char>,
    owner: Seq<char>,
    missing: Seq<char>,
) -> (Seq<TaskV>, Seq<char>) {
    match find_task(tasks, id) {
        None => (tasks, "Error: "@ + missing),
        Some(t) => if t.status != TaskStatus::Pending {
            (tasks, "Task "@ + id + " is "@ + status_text(t.status) + ", cannot claim"@)
        } else if waits_for(tasks, t).len() > 0 {
            (tasks, "Blocked by: "@ + debug_texts(waits_for(tasks, t)))
        } else {
            (
                replaced(
                    tasks,
                    TaskV { status: TaskStatus::InProgress, owner: Some(owner), ..t },
                ),
                "Claimed "@ + t.id + " ("@ + t.subject + ")"@,
            )
        },
    }
}

/// Claims a task: a pending task that waits for no other becomes the agent's. Otherwise nothing
/// changes, and the answer says why.
pub fn claim_task(store: &mut TaskStore, task_id: &str, owner: &str, missing: &str) -> (r: String)
    ensures
        claimed(old(store)@, task_id@, owner@, missing@) == (final(store)@, r@),
{
    let mut task = match store.load(task_id) {
        None => {
            return concat2("Error: ", missing);
        },
        Some(t) => t,
    };
    let ghost found = task@;
    if task.status != TaskStatus::Pending {
        let head = concat3("Task ", task_id, " is ");
        return concat3(head.as_str(), task.status.as_word(), ", cannot claim");
    }
    let waits = incomplete_dependencies(store, &task);
    assert(texts(waits@).len() == waits@.len());
    if waits.len() > 0 {
        return concat2("Blocked by: ", debug_list(waits.as_slice()).as_str());
    }
    task.status = TaskStatus::InProgress;
    task.owner = Some(owned(owner));
    assert(task@ == (TaskV { status: TaskStatus::InProgress, owner: Some(owner@), ..found }));
    store.save(&task);
    let head = concat3("Claimed ", task.id.as_str(), " (");
    concat3(head.as_str(), task.subject.as_str(), ")")
}

/// Completing a task: the tasks after it, and what the agent is answered. `missing` is what is said of
/// a task that cannot be read.
pub open spec fn completed(
    tasks: Seq<TaskV>,
    id: Seq<char>,
    owner: Seq<char>,
    missing: Seq<char>,
) -> (Seq<TaskV>, Seq<char>) {
    match find_task(tasks, id) {
        None => (tasks, "Error: "@ + missing),
        Some(t) => if t.status != TaskStatus::InProgress {
            (tasks, "Task "@ + id + " is "@ + status_text(t.status) + ", cannot complete"@)
        } else if t.owner != Some(owner) {
            (
                tasks,
                "Task "@ + id + " is owned by "@ + (match t.owner {
                    Some(o) => o,
                    None => "none"@,
                }) + ", not "@ + owner,
            )
        } else {
            let after = replaced(tasks, TaskV { status: TaskStatus::Completed, ..t });
            let free = unblocked(after, ready_ids(tasks, tasks), after);
            let said = "Completed "@ + t.id + " ("@ + t.subject + ")"@;
            (
                after,
                if free.len() == 0 {
                    said
                } else {
                    said + ("\nUnblocked: "@ + join(free, ", "@))
                },
            )
        },
    }
}

/// Completes a task of the agent, and names the tasks that waited for it alone. Otherwise nothing
/// changes, and the answer says why.
pub fn complete_task(store: &mut TaskStore, task_id: &str, owner: &str, missing: &str) -> (r: String)
    ensures
        completed(old(store)@, task_id@, owner@, missing@) == (final(store)@, r@),
{
    let ready_before = list_ready(store);
    let mut task = match store.load(task_id) {
        None => {
            return concat2("Error: ", missing);
        },
        Some(t) => t,
    };
    let ghost found = task@;
    if task.status != TaskStatus::InProgress {
        let head = concat3("Task ", task_id, " is ");
        return concat3(head.as_str(), task.status.as_word(), ", cannot complete");
    }
    let same = match &task.owner {
        Some(o) => str_eq(o.as_str(), owner),
        None => false,
    };
    if !same {
        let holder = match &task.owner {
            Some(o) => o.as_str(),
            None => "none",
        };
        let head = concat3("Task ", task_id, " is owned by ");
        return concat2(concat3(head.as_str(), holder, ", not ").as_str(), owner);
    }
    task.status = TaskStatus::Completed;
    assert(task@ == (TaskV { status: TaskStatus::Completed, ..found }));
    store.save(&task);
    let free = list_unblocked(store, ready_before.as_slice());
    assert(texts(free@).len() == free@.len());
    let head = concat3("Completed ", task.id.as_str(), " (");
    let said = concat3(head.as_str(), task.subject.as_str(), ")");
    if free.len() == 0 {
        said
    } else {
        let more = concat2("\nUnblocked: ", joined(free.as_slice(), ", ").as_str());
        concat2(said.as_str(), more.as_str())
    }
}

// ---- tools ----

/// The schema of a described value.
pub open spec fn described_v(kind: Seq<char>, description: Seq<char>) -> JsonV {
    JsonV::Object(
        seq![("type"@, JsonV::Text(kind)), ("description"@, JsonV::Text(description))],
    )
}

fn described(kind: &str, description: &str) -> (r: Json)
    ensures
        r@ == described_v(kind@, description@),
{
    let mut fields: Vec<(String, Json)> = Vec::new();
    put(&mut fields, "type", json_str(kind));
    put(&mut fields, "description", json_str(description));
    assert(fields_view(fields@) =~= seq![
        ("type"@, JsonV::Text(kind@)),
        ("description"@, JsonV::Text(description@)),
    ]);
    object(fields)
}

/// The schema of an input that names a task.
pub open spec fn task_id_schema(description: Seq<char>) -> JsonV {
    schema_v(
        seq![("task_id"@, described_v("string"@, description))],
        seq![JsonV::Text("task_id"@)],
    )
}

fn named_task_schema(description: &str) -> (r: Json)
    ensures
        r@ == task_id_schema(description@),
{
    let mut properties: Vec<(String, Json)> = Vec::new();
    put(&mut properties, "task_id", described("string", description));
    let mut required: Vec<Json> = Vec::new();
    put_text(&mut required, "task_id");
    assert(fields_view(properties@) =~= seq![("task_id"@, described_v("string"@, description@))]);
    assert(list_view(required@) =~= seq![JsonV::Text("task_id"@)]);
    schema(properties, required)
}

/// What a call of the create tool asks for.
#[derive(Debug)]
pub struct CreateRequest {
    pub subject: String,
    pub description: String,
    pub blocked_by: Vec<String>,
}

/// The texts among the elements.
pub open spec fn texts_among(items: Seq<JsonV>) -> Seq<Seq<char>>
    decreases items.len(),
{
    if items.len() == 0 {
        Seq::empty()
    } else {
        let rest = texts_among(items.drop_last());
        match text_of(items.last()) {
            Some(t) => rest.push(t),
            None => rest,
        }
    }
}

/// The tasks that the new one is to wait for.
pub open spec fn asked_dependencies(input: JsonV) -> Seq<Seq<char>> {
    match field(input, "blockedBy"@) {
        Some(v) => match array_of(v) {
            Some(items) => texts_among(items),
            None => Seq::empty(),
        },
        None => Seq::empty(),
    }
}

fn collect_texts(items: &[Json]) -> (r: Vec<String>)
    ensures
        texts(r@) == texts_among(list_view(items@)),
{
    let ghost all = list_view(items@);
    proof {
        lemma_list_view(items@);
    }
    let mut out: Vec<String> = Vec::new();
    assert(texts(out@) =~= texts_among(all.take(0)));
    let mut i: usize = 0;
    while i < items.len()
        invariant
            i <= items@.len(),
            all == list_view(items@),
            all.len() == items@.len(),
            texts(out@) == texts_among(all.take(i as int)),
        decreases items@.len() - i,
    {
        let ghost before = texts(out@);
        proof {
            lemma_list_view(items@);
        }
        assert(all.take(i + 1).drop_last() =~= all.take(i as int));
        assert(all.take(i + 1).last() == items@[i as int]@);
        match items[i].as_str() {
            Some(t) => {
                out.push(owned(t));
                assert(texts(out@) =~= before.push(t@));
            },
            None => {},
        }
        i += 1;
    }
    assert(all.take(items@.len() as int) =~= all);
    out
}

/// The dependencies of a task as they stand behind its subject.
pub open spec fn dependency_note(t: TaskV) -> Seq<char> {
    if t.blocked_by.len() == 0 {
        Seq::empty()
    } else {
        " (blockedBy: "@ + join(t.blocked_by, ", "@) + ")"@
    }
}

fn note_dependencies(task: &Task) -> (r: String)
    ensures
        r@ == dependency_note(task@),
{
    assert(texts(task.blocked_by@).len() == task.blocked_by@.len());
    if task.blocked_by.len() == 0 {
        String::new()
    } else {
        concat3(" (blockedBy: ", joined(task.blocked_by.as_slice(), ", ").as_str(), ")")
    }
}

/// Creates a task.
pub struct CreateTaskTool;

impl CreateTaskTool {
    pub fn name(&self) -> (r: &'static str)
        ensures
            r@ == "create_task"@,
    {
        "create_task"
    }

    pub fn description(&self) -> (r: &'static str)
        ensures
            r@
                == "Create a task with optional dependencies. The task is stored in .tasks/{id}.json"@,
    {
        "Create a task with optional dependencies. The task is stored in .tasks/{id}.json"
    }

    pub fn input_schema(&self) -> (r: Json)
        ensures
            r@ == schema_v(
                seq![
                    ("subject"@, described_v("string"@, "Brief title for the task"@)),
                    ("description"@, described_v("string"@, "Detailed description of the task"@)),
                    (
                        "blockedBy"@,
                        JsonV::Object(
                            seq![
                                ("type"@, JsonV::Text("array"@)),
                                (
                                    "items"@,
                                    JsonV::Object(seq![("type"@, JsonV::Text("string"@))]),
                                ),
                                (
                                    "description"@,
                                    JsonV::Text("List of task IDs this "@ + "task depends on"@),
                                ),
                            ],
                        ),
                    ),
                ],
                seq![JsonV::Text("subject"@)],
            ),
    {
        let mut list: Vec<(String, Json)> = Vec::new();
        put(&mut list, "type", json_str("array"));
        put(&mut list, "items", crate::tools::typed("string"));
        let about = concat2("List of task IDs this ", "task depends on");
        put(&mut list, "description", json_str(about.as_str()));
        assert(fields_view(list@) =~= seq![
            ("type"@, JsonV::Text("array"@)),
            ("items"@, JsonV::Object(seq![("type"@, JsonV::Text("string"@))])),
            ("description"@, JsonV::Text("List of task IDs this "@ + "task depends on"@)),
        ]);
        let mut properties: Vec<(String, Json)> = Vec::new();
        put(&mut properties, "subject", described("string", "Brief title for the task"));
        put(
            &mut properties,
            "description",
            described("string", "Detailed description of the task"),
        );
        put(&mut properties, "blockedBy", object(list));
        let mut required: Vec<Json> = Vec::new();
        put_text(&mut required, "subject");
        assert(fields_view(properties@) =~= seq![
            ("subject"@, described_v("string"@, "Brief title for the task"@)),
            ("description"@, described_v("string"@, "Detailed description of the task"@)),
            (
                "blockedBy"@,
                JsonV::Object(
                    seq![
                        ("type"@, JsonV::Text("array"@)),
                        ("items"@, JsonV::Object(seq![("type"@, JsonV::Text("string"@))])),
                        ("description"@, JsonV::Text("List of task IDs this "@ + "task depends on"@)),
                    ],
                ),
            ),
        ]);
        assert(list_view(required@) =~= seq![JsonV::Text("subject"@)]);
        schema(properties, required)
    }

    /// Nothing about the call needs approval.
    pub fn check_permission(&self, _input: &Json) -> (r: PermissionCheck)
        ensures
            r is Pass,
    {
        PermissionCheck::Pass
    }

    /// What the call asks for.
    pub fn request(&self, input: &Json) -> (r: CreateRequest)
        ensures
            r.subject@ == input_text(input@, "subject"@),
            r.description@ == input_text(input@, "description"@),
            texts(r.blocked_by@) == asked_dependencies(input@),
    {
        let empty: Vec<String> = Vec::new();
        assert(texts(empty@) =~= Seq::empty());
        let blocked_by = match input.get("blockedBy") {
            Some(Json::Array(items)) => collect_texts(items.as_slice()),
            _ => empty,
        };
        CreateRequest {
            subject: text_input(input, "subject"),
            description: text_input(input, "description"),
            blocked_by,
        }
    }

    /// What the model is told of the task that was created.
    pub fn reply(&self, task: &Task) -> (r: String)
        ensures
            r@ == "Created "@ + task@.id + ": "@ + task@.subject + dependency_note(task@),
    {
        let head = concat3("Created ", task.id.as_str(), ": ");
        concat3(head.as_str(), task.subject.as_str(), note_dependencies(task).as_str())
    }
}

/// The box in front of a task.
pub open spec fn marker(s: TaskStatus) -> Seq<char> {
    match s {
        TaskStatus::Pending => "[ ]"@,
        TaskStatus::InProgress => "[>]"@,
        TaskStatus::Completed => "[x]"@,
    }
}

/// The line that lists a task.
pub open spec fn task_line(t: TaskV) -> Seq<char> {
    let owner = match t.owner {
        Some(o) => " ["@ + o + "]"@,
        None => Seq::empty(),
    };
    marker(t.status) + " "@ + t.id + ": "@ + t.subject + " [\""@ + status_text(t.status) + "\"]"@
        + owner + dependency_note(t)
}

fn list_line(task: &Task) -> (r: String)
    ensures
        r@ == task_line(task@),
{
    let mark = match task.status {
        TaskStatus::Pending => "[ ]",
        TaskStatus::InProgress => "[>]",
        TaskStatus::Completed => "[x]",
    };
    let owner = match &task.owner {
        Some(o) => concat3(" [", o.as_str(), "]"),
        None => String::new(),
    };
    let head = concat3(mark, " ", task.id.as_str());
    let titled = concat3(head.as_str(), ": ", task.subject.as_str());
    let status = concat3(titled.as_str(), " [\"", task.status.as_word());
    let closed = concat2(status.as_str(), "\"]");
    concat3(closed.as_str(), owner.as_str(), note_dependencies(task).as_str())
}

/// Lists the tasks.
pub struct ListTasksTool;

impl ListTasksTool {
    pub fn name(&self) -> (r: &'static str)
        ensures
            r@ == "list_tasks"@,
    {
        "list_tasks"
    }

    pub fn description(&self) -> (r: &'static str)
        ensures
            r@ == "List all tasks with their status, owner, and dependencies"@,
    {
        "List all tasks with their status, owner, and dependencies"
    }

    pub fn input_schema(&self) -> (r: Json)
        ensures
            r@ == JsonV::Object(
                seq![
                    ("type"@, JsonV::Text("object"@)),
                    ("properties"@, JsonV::Object(Seq::empty())),
                ],
            ),
    {
        let mut fields: Vec<(String, Json)> = Vec::new();
        put(&mut fields, "type", json_str("object"));
        put(&mut fields, "properties", object(Vec::new()));
        assert(fields_view(fields@) =~= seq![
            ("type"@, JsonV::Text("object"@)),
            ("properties"@, JsonV::Object(Seq::empty())),
        ]);
        object(fields)
    }

    /// Nothing about the call needs approval.
    pub fn check_permission(&self, _input: &Json) -> (r: PermissionCheck)
        ensures
            r is Pass,
    {
        PermissionCheck::Pass
    }

    /// A line for each task.
    pub fn execute(&self, store: &TaskStore) -> (r: String)
        ensures
            r@ == if store@.len() == 0 {
                "No tasks. Use create_task to add some."@
            } else {
                join(store@.map_values(|t: TaskV| task_line(t)), "\n"@)
            },
    {
        let n: usize = store.len();
        if n == 0 {
            return owned("No tasks. Use create_task to add some.");
        }
        let ghost goal = store@.map_values(|t: TaskV| task_line(t));
        let mut out: Vec<String> = Vec::new();
        let mut i: usize = 0;
        while i < n
            invariant
                i <= n,
                n == store@.len(),
                goal == store@.map_values(|t: TaskV| task_line(t)),
                texts(out@) == goal.take(i as int),
            decreases n - i,
        {
            let ghost before = texts(out@);
            out.push(list_line(store.at(i)));
            assert(texts(out@) =~= before.push(goal[i as int]));
            assert(goal.take(i + 1) =~= before.push(goal[i as int]));
            i += 1;
        }
        assert(goal.take(n as int) =~= goal);
        joined(out.as_slice(), "\n")
    }
}

/// Shows a task.
pub struct GetTaskTool;

impl GetTaskTool {
    pub fn name(&self) -> (r: &'static str)
        ensures
            r@ == "get_task"@,
    {
        "get_task"
    }

    pub fn description(&self) -> (r: &'static str)
        ensures
            r@ == "Get a task by ID, returning full task details"@,
    {
        "Get a task by ID, returning full task details"
    }

    pub fn input_schema(&self) -> (r: Json)
        ensures
            r@ == task_id_schema("The task ID to retrieve"@),
    {
        named_task_schema("The task ID to retrieve")
    }

    /// Nothing about the call needs approval.
    pub fn check_permission(&self, _input: &Json) -> (r: PermissionCheck)
        ensures
            r is Pass,
    {
        PermissionCheck::Pass
    }

    /// The task that the call names, as indented JSON; `missing` is what is said of a task that cannot
    /// be read.
    pub fn execute(&self, store: &TaskStore, input: &Json, missing: &str) -> (r: String)
        ensures
            r@ == match find_task(store@, input_text(input@, "task_id"@)) {
                Some(t) => task_json(t),
                None => "Error: "@ + missing@,
            },
    {
        match store.load(text_input(input, "task_id").as_str()) {
            Some(t) => t.to_json(),
            None => concat2("Error: ", missing),
        }
    }
}

/// Claims a task.
pub struct ClaimTaskTool;

impl ClaimTaskTool {
    pub fn name(&self) -> (r: &'static str)
        ensures
            r@ == "claim_task"@,
    {
        "claim_task"
    }

    pub fn description(&self) -> (r: &'static str)
        ensures
            r@
                == "Claim a pending task whose dependencies are complete. Sets owner and status to in_progress"@,
    {
        "Claim a pending task whose dependencies are complete. Sets owner and status to in_progress"
    }

    pub fn input_schema(&self) -> (r: Json)
        ensures
            r@ == task_id_schema("The task ID to claim"@),
    {
        named_task_schema("The task ID to claim")
    }

    /// Nothing about the call needs approval.
    pub fn check_permission(&self, _input: &Json) -> (r: PermissionCheck)
        ensures
            r is Pass,
    {
        PermissionCheck::Pass
    }

    /// Claims the task that the call names.
    pub fn execute(&self, store: &mut TaskStore, input: &Json, owner: &str, missing: &str) -> (r:
        String)
        ensures
            claimed(old(store)@, input_text(input@, "task_id"@), owner@, missing@) == (
                final(store)@,
                r@,
            ),
    {
        claim_task(store, text_input(input, "task_id").as_str(), owner, missing)
    }
}

/// Completes a task.
pub struct CompleteTaskTool;

impl CompleteTaskTool {
    pub fn name(&self) -> (r: &'static str)
        ensures
            r@ == "complete_task"@,
    {
        "complete_task"
    }

    pub fn description(&self) -> (r: &'static str)
        ensures
            r@ == "Complete the task claimed by this agent. Returns list of newly unblocked tasks"@,
    {
        "Complete the task claimed by this agent. Returns list of newly unblocked tasks"
    }

    pub fn input_schema(&self) -> (r: Json)
        ensures
            r@ == task_id_schema("The task ID to complete"@),
    {
        named_task_schema("The task ID to complete")
    }

    /// Nothing about the call needs approval.
    pub fn check_permission(&self, _input: &Json) -> (r: PermissionCheck)
        ensures
            r is Pass,
    {
        PermissionCheck::Pass
    }

    /// Completes the task that the call names.
    pub fn execute(&self, store: &mut TaskStore, input: &Json, owner: &str, missing: &str) -> (r:
        String)
        ensures
            completed(old(store)@, input_text(input@, "task_id"@), owner@, missing@) == (
                final(store)@,
                r@,
            ),
    {
        complete_task(store, text_input(input, "task_id").as_str(), owner, missing)
    }
}

// ---- laws ----

proof fn lemma_find_replaced(tasks: Seq<TaskV>, task: TaskV, id: Seq<char>)
    ensures
        find_task(replaced(tasks, task), id) == if id == task.id {
            match find_task(tasks, id) {
                Some(_) => Some(task),
                None => None,
            }
        } else {
            find_task(tasks, id)
        },
    decreases tasks.len(),
{
    if tasks.len() > 0 {
        lemma_find_replaced(tasks.skip(1), task, id);
        assert(replaced(tasks, task).skip(1) =~= replaced(tasks.skip(1), task));
    }
}

proof fn lemma_find_has_id(tasks: Seq<TaskV>, id: Seq<char>)
    ensures
        find_task(tasks, id) matches Some(t) ==> t.id == id && tasks.contains(t),
    decreases tasks.len(),
{
    if tasks.len() > 0 && tasks[0].id != id {
        lemma_find_has_id(tasks.skip(1), id);
        if find_task(tasks, id) is Some {
            let t = find_task(tasks, id)->0;
            let k = choose|k: int| 0 <= k < tasks.skip(1).len() && tasks.skip(1)[k] == t;
            assert(tasks[k + 1] == t);
        }
    } else if tasks.len() > 0 {
        assert(tasks[0].id == id);
    }
}

/// Claiming and completing touch no other task: the task of any other id is what it was.
pub proof fn lemma_others_untouched(
    tasks: Seq<TaskV>,
    id: Seq<char>,
    owner: Seq<char>,
    missing: Seq<char>,
    other: Seq<char>,
)
    requires
        other != id,
    ensures
        find_task(claimed(tasks, id, owner, missing).0, other) == find_task(tasks, other),
        find_task(completed(tasks, id, owner, missing).0, other) == find_task(tasks, other),
{
    lemma_find_has_id(tasks, id);
    if find_task(tasks, id) is Some {
        let t = find_task(tasks, id)->0;
        lemma_find_replaced(
            tasks,
            TaskV { status: TaskStatus::InProgress, owner: Some(owner), ..t },
            other,
        );
        lemma_find_replaced(tasks, TaskV { status: TaskStatus::Completed, ..t }, other);
    }
}

/// A task is worked on by one agent at a time: once it is claimed, nobody claims it again, and only
/// the agent that claimed it completes it.
pub proof fn lemma_claim_is_exclusive(
    tasks: Seq<TaskV>,
    id: Seq<char>,
    owner: Seq<char>,
    other: Seq<char>,
    missing: Seq<char>,
)
    requires
        find_task(tasks, id) matches Some(t) && t.status == TaskStatus::Pending && waits_for(
            tasks,
            t,
        ).len() == 0,
    ensures
        ({
            let after = claimed(tasks, id, owner, missing).0;
            &&& find_task(after, id) matches Some(t) && t.status == TaskStatus::InProgress && t.owner
                == Some(owner)
            &&& claimed(after, id, other, missing).0 == after
            &&& other != owner ==> completed(after, id, other, missing).0 == after
            &&& done(completed(after, id, owner, missing).0, id)
        }),
{
    lemma_find_has_id(tasks, id);
    let t = find_task(tasks, id)->0;
    let mine = TaskV { status: TaskStatus::InProgress, owner: Some(owner), ..t };
    lemma_find_replaced(tasks, mine, id);
    let after = claimed(tasks, id, owner, missing).0;
    lemma_find_replaced(after, TaskV { status: TaskStatus::Completed, ..mine }, id);
}

/// What is completed stays completed, whatever is claimed or completed afterwards.
pub proof fn lemma_completed_stays(
    tasks: Seq<TaskV>,
    id: Seq<char>,
    owner: Seq<char>,
    missing: Seq<char>,
    other: Seq<char>,
)
    requires
        done(tasks, other),
    ensures
        done(claimed(tasks, id, owner, missing).0, other),
        done(completed(tasks, id, owner, missing).0, other),
{
    if other != id {
        lemma_others_untouched(tasks, id, owner, missing, other);
    }
}

proof fn lemma_not_done_subset(tasks: Seq<TaskV>, ids: Seq<Seq<char>>)
    ensures
        not_done(tasks, ids).len() == 0 <==> forall|i: int|
            0 <= i < ids.len() ==> done(tasks, #[trigger] ids[i]),
    decreases ids.len(),
{
    if ids.len() > 0 {
        let front = ids.drop_last();
        lemma_not_done_subset(tasks, front);
        if not_done(tasks, ids).len() == 0 {
            assert forall|i: int| 0 <= i < ids.len() implies done(tasks, #[trigger] ids[i]) by {
                if i < front.len() {
                    assert(front[i] == ids[i]);
                }
            }
        }
        if forall|i: int| 0 <= i < ids.len() ==> done(tasks, #[trigger] ids[i]) {
            assert forall|i: int| 0 <= i < front.len() implies done(
                tasks,
                #[trigger] front[i],
            ) by {
                assert(front[i] == ids[i]);
            }
            assert(done(tasks, ids[ids.len() - 1]));
        }
    }
}

/// A task is claimable exactly when every task that it was made to wait for is completed.
pub proof fn lemma_waits_for_none(tasks: Seq<TaskV>, t: TaskV)
    ensures
        waits_for(tasks, t).len() == 0 <==> forall|i: int|
            0 <= i < t.blocked_by.len() ==> done(tasks, #[trigger] t.blocked_by[i]),
{
    lemma_not_done_subset(tasks, t.blocked_by);
}

proof fn lemma_not_done_same(before: Seq<TaskV>, after: Seq<TaskV>, ids: Seq<Seq<char>>)
    requires
        forall|i: int|
            0 <= i < ids.len() ==> done(before, #[trigger] ids[i]) == done(after, ids[i]),
    ensures
        not_done(before, ids) == not_done(after, ids),
    decreases ids.len(),
{
    if ids.len() > 0 {
        let front = ids.drop_last();
        assert forall|i: int| 0 <= i < front.len() implies done(before, #[trigger] front[i])
            == done(after, front[i]) by {
            assert(front[i] == ids[i]);
        }
        lemma_not_done_same(before, after, front);
        assert(done(before, ids[ids.len() - 1]) == done(after, ids[ids.len() - 1]));
    }
}

/// A task that completing another one sets free was waiting for that one: it stands among the tasks
/// that it was made to wait for.
pub proof fn lemma_unblocked_waited(
    tasks: Seq<TaskV>,
    id: Seq<char>,
    owner: Seq<char>,
    missing: Seq<char>,
    t: TaskV,
)
    requires
        ({
            let after = completed(tasks, id, owner, missing).0;
            ready(after, t) && !ready(tasks, t)
        }),
    ensures
        t.blocked_by.contains(id),
{
    let after = completed(tasks, id, owner, missing).0;
    if !t.blocked_by.contains(id) {
        assert forall|i: int| 0 <= i < t.blocked_by.len() implies done(
            tasks,
            #[trigger] t.blocked_by[i],
        ) == done(after, t.blocked_by[i]) by {
            lemma_others_untouched(tasks, id, owner, missing, t.blocked_by[i]);
        }
        lemma_not_done_same(tasks, after, t.blocked_by);
    }
}

} // verus!

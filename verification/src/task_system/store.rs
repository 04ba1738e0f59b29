//! The tasks that could be read, as claiming and completing look at them.

use vstd::prelude::*;

use crate::random::random_draws;
use crate::task_system::task::{tasks_view, Task, TaskStatus, TaskV};
use crate::text::{concat2, hex8, hex_digits, owned, str_eq, texts};

verus! {

broadcast use vstd::string::group_string_axioms;

/// The first task with the id.
pub open spec fn find_task(tasks: Seq<TaskV>, id: Seq<char>) -> Option<TaskV>
    decreases tasks.len(),
{
    if tasks.len() == 0 {
        None
    } else if tasks[0].id == id {
        Some(tasks[0])
    } else {
        find_task(tasks.skip(1), id)
    }
}

/// The tasks with `task` in place of those of its id.
pub open spec fn replaced(tasks: Seq<TaskV>, task: TaskV) -> Seq<TaskV> {
    tasks.map_values(|t: TaskV| if t.id == task.id { task } else { t })
}

/// The id that a random number gives.
pub open spec fn task_id(draw: u32) -> Seq<char> {
    "task_"@ + hex_digits(draw as nat, 8)
}

/// The first id of those that the random numbers give that no task has.
pub open spec fn free_task_id(tasks: Seq<TaskV>, draws: Seq<u32>) -> Option<Seq<char>>
    decreases draws.len(),
{
    if draws.len() == 0 {
        None
    } else if find_task(tasks, task_id(draws[0])) is None {
        Some(task_id(draws[0]))
    } else {
        free_task_id(tasks, draws.skip(1))
    }
}

/// A task as it is created: nobody has claimed it yet.
pub open spec fn fresh_task(
    id: Seq<char>,
    subject: Seq<char>,
    description: Seq<char>,
    blocked_by: Seq<Seq<char>>,
) -> TaskV {
    TaskV {
        id,
        subject,
        description,
        status: TaskStatus::Pending,
        owner: None,
        blocked_by,
        worktree: None,
    }
}

/// How many ids are tried for a new task.
pub const MAX_ID_RETRIES: usize = 100;

/// The tasks that could be read.
#[derive(Debug)]
pub struct TaskStore {
    tasks: Vec<Task>,
}

impl View for TaskStore {
    type V = Seq<TaskV>;

    closed spec fn view(&self) -> Seq<TaskV> {
        tasks_view(self.tasks@)
    }
}

impl TaskStore {
    pub fn new(tasks: Vec<Task>) -> (r: Self)
        ensures
            r@ == tasks_view(tasks@),
    {
        TaskStore { tasks }
    }

    /// The task with the id.
    pub fn load(&self, id: &str) -> (r: Option<Task>)
        ensures
            match r {
                Some(t) => find_task(self@, id@) == Some(t@) && t@.id == id@,
                None => find_task(self@, id@) is None,
            },
    {
        let ghost all = self@;
        assert(all.skip(0) =~= all);
        let mut i: usize = 0;
        while i < self.tasks.len()
            invariant
                i <= self.tasks@.len(),
                all == self@,
                find_task(all, id@) == find_task(all.skip(i as int), id@),
            decreases self.tasks@.len() - i,
        {
            assert(all.skip(i as int)[0] == self.tasks@[i as int]@);
            if str_eq(self.tasks[i].id.as_str(), id) {
                return Some(self.tasks[i].dup());
            }
            assert(all.skip(i as int).skip(1) =~= all.skip(i + 1));
            i += 1;
        }
        None
    }

    /// How many tasks there are.
    pub fn len(&self) -> (r: usize)
        ensures
            r == self@.len(),
    {
        self.tasks.len()
    }

    /// The task at the place.
    pub fn at(&self, i: usize) -> (r: &Task)
        requires
            i < self@.len(),
        ensures
            r@ == self@[i as int],
    {
        &self.tasks[i]
    }

    /// Adds a pending task under the first free id of those that the random numbers give; none where
    /// all are taken.
    pub fn create_with(
        &mut self,
        subject: &str,
        description: &str,
        blocked_by: Vec<String>,
        draws: &[u32],
    ) -> (r: Option<Task>)
        ensures
            match free_task_id(old(self)@, draws@) {
                Some(id) => {
                    let t = fresh_task(id, subject@, description@, texts(blocked_by@));
                    r matches Some(made) && made@ == t && final(self)@ == old(self)@.push(t)
                },
                None => r is None && final(self)@ == old(self)@,
            },
    {
        let ghost all = self@;
        assert(draws@.skip(0) =~= draws@);
        let mut i: usize = 0;
        while i < draws.len()
            invariant
                i <= draws@.len(),
                all == self@,
                all == old(self)@,
                free_task_id(all, draws@) == free_task_id(all, draws@.skip(i as int)),
            decreases draws@.len() - i,
        {
            assert(draws@.skip(i as int)[0] == draws@[i as int]);
            let id = concat2("task_", hex8(draws[i]).as_str());
            if self.load(id.as_str()).is_none() {
                let task = Task {
                    id,
                    subject: owned(subject),
                    description: owned(description),
                    status: TaskStatus::Pending,
                    owner: None,
                    blocked_by,
                    worktree: None,
                };
                self.tasks.push(task.dup());
                assert(self@ =~= all.push(task@));
                return Some(task);
            }
            assert(draws@.skip(i as int).skip(1) =~= draws@.skip(i + 1));
            i += 1;
        }
        None
    }

    /// Adds a pending task under a free random id.
    pub fn create(&mut self, subject: &str, description: &str, blocked_by: Vec<String>) -> (r:
        Option<Task>)
        ensures
            exists|draws: Seq<u32>| #[trigger]
                draws.len() == MAX_ID_RETRIES && match free_task_id(old(self)@, draws) {
                    Some(id) => {
                        let t = fresh_task(id, subject@, description@, texts(blocked_by@));
                        r matches Some(made) && made@ == t && final(self)@ == old(self)@.push(t)
                    },
                    None => r is None && final(self)@ == old(self)@,
                },
            old(self)@.len() == 0 ==> r is Some,
    {
        let draws = random_draws(MAX_ID_RETRIES);
        let ghost before = self@;
        assert(before.len() == 0 ==> free_task_id(before, draws@) is Some);
        let r = self.create_with(subject, description, blocked_by, draws.as_slice());
        assert(draws@.len() == MAX_ID_RETRIES);
        r
    }

    /// Puts the task in place of the one with its id.
    pub fn save(&mut self, task: &Task)
        ensures
            final(self)@ == replaced(old(self)@, task@),
    {
        let ghost all = self@;
        let ghost goal = replaced(all, task@);
        let n: usize = self.tasks.len();
        let mut i: usize = 0;
        while i < n
            invariant
                i <= n,
                n == self.tasks@.len(),
                all.len() == n,
                goal == replaced(all, task@),
                forall|k: int| 0 <= k < i ==> (#[trigger] self.tasks@[k])@ == goal[k],
                forall|k: int| i <= k < n ==> (#[trigger] self.tasks@[k])@ == all[k],
            decreases n - i,
        {
            if str_eq(self.tasks[i].id.as_str(), task.id.as_str()) {
                self.tasks.set(i, task.dup());
            }
            i += 1;
        }
        assert(self@ =~= goal);
    }
}

// ---- laws ----

/// No two tasks have the same id.
pub open spec fn ids_differ(tasks: Seq<TaskV>) -> bool {
    forall|i: int, j: int|
        0 <= i < j < tasks.len() ==> (#[trigger] tasks[i]).id != (#[trigger] tasks[j]).id
}

proof fn lemma_absent(tasks: Seq<TaskV>, id: Seq<char>)
    requires
        find_task(tasks, id) is None,
    ensures
        forall|i: int| 0 <= i < tasks.len() ==> (#[trigger] tasks[i]).id != id,
    decreases tasks.len(),
{
    if tasks.len() > 0 {
        lemma_absent(tasks.skip(1), id);
        assert forall|i: int| 0 <= i < tasks.len() implies (#[trigger] tasks[i]).id != id by {
            if i > 0 {
                assert(tasks.skip(1)[i - 1] == tasks[i]);
            }
        }
    }
}

proof fn lemma_free_is_absent(tasks: Seq<TaskV>, draws: Seq<u32>)
    ensures
        free_task_id(tasks, draws) matches Some(id) ==> find_task(tasks, id) is None,
    decreases draws.len(),
{
    if draws.len() > 0 {
        lemma_free_is_absent(tasks, draws.skip(1));
    }
}

/// A new task gets an id that no task has, whatever the random numbers are.
pub proof fn lemma_new_id_is_free(
    tasks: Seq<TaskV>,
    draws: Seq<u32>,
    subject: Seq<char>,
    description: Seq<char>,
    blocked_by: Seq<Seq<char>>,
)
    requires
        ids_differ(tasks),
    ensures
        free_task_id(tasks, draws) matches Some(id) ==> ids_differ(
            tasks.push(fresh_task(id, subject, description, blocked_by)),
        ),
{
    lemma_free_is_absent(tasks, draws);
    if let Some(id) = free_task_id(tasks, draws) {
        lemma_absent(tasks, id);
    }
}

} // verus!

//! Task suites: what an agent is asked, and what is asserted of its answer and of the way there.

use vstd::prelude::*;

use crate::text::{concat2, list_contains, owned, texts};

verus! {

broadcast use vstd::string::group_string_axioms;

/// What is asserted of a task.
#[derive(Debug)]
pub enum Assertion {
    /// A judge finds that the answer meets the rubric.
    Judge { rubric: String },
    /// The way to the answer keeps to these limits.
    Trajectory {
        max_steps: Option<u32>,
        max_tokens: Option<u64>,
        forbidden_tools: Vec<String>,
    },
}

/// A task of a suite.
#[derive(Debug)]
pub struct EvalTask {
    pub name: String,
    pub prompt: String,
    /// The directory that is copied for the task, where there is one.
    pub workspace: Option<String>,
    pub assertions: Vec<Assertion>,
}

/// A suite of tasks.
#[derive(Debug)]
pub struct EvalSuite {
    pub suite: String,
    pub tasks: Vec<EvalTask>,
}

/// The names of the tasks.
pub open spec fn task_names(tasks: Seq<EvalTask>) -> Seq<Seq<char>> {
    tasks.map_values(|t: EvalTask| t.name@)
}

/// The first name that stands earlier, too.
pub open spec fn first_repeated(names: Seq<Seq<char>>) -> Option<Seq<char>>
    decreases names.len(),
{
    if names.len() == 0 {
        None
    } else {
        match first_repeated(names.drop_last()) {
            Some(n) => Some(n),
            None => if names.drop_last().contains(names.last()) {
                Some(names.last())
            } else {
                None
            },
        }
    }
}

/// What is wrong with a suite of these tasks, if anything.
pub open spec fn suite_fault(names: Seq<Seq<char>>) -> Option<Seq<char>> {
    if names.len() == 0 {
        Some("suite has no tasks"@)
    } else {
        match first_repeated(names) {
            Some(n) => Some("duplicate task name: "@ + n),
            None => None,
        }
    }
}

proof fn lemma_repeated_stays(names: Seq<Seq<char>>, n: int)
    requires
        0 <= n <= names.len(),
        first_repeated(names.take(n)) is Some,
    ensures
        first_repeated(names) == first_repeated(names.take(n)),
    decreases names.len(),
{
    if n < names.len() {
        assert(names.drop_last().take(n) =~= names.take(n));
        lemma_repeated_stays(names.drop_last(), n);
    } else {
        assert(names.take(n) =~= names);
    }
}

impl EvalSuite {
    /// Accepts a suite that has tasks, no two of the same name.
    pub fn checked(self) -> (r: Result<Self, String>)
        ensures
            match suite_fault(task_names(self.tasks@)) {
                None => r == Ok::<Self, String>(self),
                Some(e) => r matches Err(m) && m@ == e,
            },
    {
        let ghost all = task_names(self.tasks@);
        let n: usize = self.tasks.len();
        if n == 0 {
            return Err(owned("suite has no tasks"));
        }
        let mut names: Vec<String> = Vec::new();
        assert(texts(names@) =~= all.take(0));
        let mut i: usize = 0;
        while i < n
            invariant
                i <= n,
                n == self.tasks@.len(),
                n > 0,
                all == task_names(self.tasks@),
                texts(names@) == all.take(i as int),
                first_repeated(all.take(i as int)) is None,
            decreases n - i,
        {
            let name = &self.tasks[i].name;
            assert(all.take(i + 1).drop_last() =~= all.take(i as int));
            assert(all.take(i + 1).last() == name@);
            if list_contains(names.as_slice(), name.as_str()) {
                proof {
                    lemma_repeated_stays(all, i + 1);
                }
                return Err(concat2("duplicate task name: ", name.as_str()));
            }
            let ghost before = texts(names@);
            names.push(name.clone());
            assert(texts(names@) =~= before.push(name@));
            assert(all.take(i + 1) =~= before.push(name@));
            i += 1;
        }
        assert(all.take(n as int) =~= all);
        Ok(self)
    }
}

/// A suite is accepted exactly where it has tasks and all names differ.
pub proof fn lemma_accepted_names_differ(names: Seq<Seq<char>>)
    ensures
        first_repeated(names) is None <==> forall|i: int, j: int|
            0 <= i < j < names.len() ==> names[i] != names[j],
    decreases names.len(),
{
    if names.len() > 0 {
        let front = names.drop_last();
        lemma_accepted_names_differ(front);
        if first_repeated(names) is None {
            assert forall|i: int, j: int| 0 <= i < j < names.len() implies names[i] != names[j] by {
                assert(front[i] == names[i]);
                if j < front.len() {
                    assert(front[j] == names[j]);
                } else {
                    assert(front.contains(names[i]));
                }
            }
        }
        if forall|i: int, j: int| 0 <= i < j < names.len() ==> names[i] != names[j] {
            assert forall|i: int, j: int| 0 <= i < j < front.len() implies front[i] != front[j] by {
                assert(names[i] != names[j]);
            }
            if front.contains(names.last()) {
                let k = choose|k: int| 0 <= k < front.len() && front[k] == names.last();
                assert(names[k] != names[names.len() - 1]);
            }
        }
    }
}

} // verus!

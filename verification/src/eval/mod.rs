//! Evaluation: recorded model calls, injected faults, task suites and reports.

use vstd::prelude::*;

use crate::eval::fingerprint::MaskRules;
use crate::eval::judge::{JudgeVerdict, VerdictV};
use crate::eval::report::{TaskReport, TaskReportV};
use crate::eval::suite::{Assertion, EvalTask};
use crate::eval::trajectory::{count_of, no_metrics, MetricsV, TrajectoryMetrics};
use crate::json::{fields_view, json_str, Json, JsonV};
use crate::pattern::regex_escaped;
use crate::select::selects;
use crate::text::{
    concat2, concat3, decimal, decimal_u64, join, joined, owned, texts,
};
use crate::tools::{object, put};

pub mod cassette;
pub mod fault;
pub mod fingerprint;
pub mod judge;
pub mod laws;
pub mod report;
pub mod suite;
pub mod trajectory;

verus! {

broadcast use vstd::string::group_string_axioms;

/// How many turns an agent has for a task.
pub const EVAL_MAX_TURNS: usize = 20;

/// The system prompt of an agent that is evaluated.
pub const EVAL_SYSTEM: &'static str =
    "You are a coding agent. Use tools as needed to complete the task, then answer concisely.";

/// Where the model calls of an evaluation come from.
#[derive(Clone, Copy, Debug, PartialEq, Eq, Structural)]
pub enum EvalMode {
    /// A recording.
    Replay,
    /// A provider, and what succeeds is recorded.
    Record,
    /// A provider.
    Live,
}

impl EvalMode {
    /// The word for the mode.
    pub fn word(&self) -> (r: &'static str)
        ensures
            r@ == match *self {
                EvalMode::Replay => "replay"@,
                EvalMode::Record => "record"@,
                EvalMode::Live => "live"@,
            },
    {
        match self {
            EvalMode::Replay => "replay",
            EvalMode::Record => "record",
            EvalMode::Live => "live",
        }
    }
}

// ---- what is wrong with a task ----

/// The forbidden tools that were used.
pub open spec fn forbidden_used(tools: Seq<Seq<char>>, m: MetricsV) -> Seq<Seq<char>>
    decreases tools.len(),
{
    if tools.len() == 0 {
        Seq::empty()
    } else {
        let rest = forbidden_used(tools.drop_last(), m);
        if count_of(m.tool_calls, tools.last()) is Some {
            rest.push("forbidden tool used: "@ + tools.last())
        } else {
            rest
        }
    }
}

/// The limits that the way to an answer does not keep to.
pub open spec fn trajectory_failures(
    max_steps: Option<u32>,
    max_tokens: Option<u64>,
    forbidden: Seq<Seq<char>>,
    m: MetricsV,
) -> Seq<Seq<char>> {
    let tokens = m.prompt_tokens + m.completion_tokens;
    let steps = if max_steps is Some && m.steps > max_steps->0 {
        seq!["steps "@ + decimal(m.steps as nat) + " > max "@ + decimal(max_steps->0 as nat)]
    } else {
        Seq::empty()
    };
    let cost = if max_tokens is Some && tokens > max_tokens->0 {
        seq!["tokens "@ + decimal(tokens as nat) + " > max "@ + decimal(max_tokens->0 as nat)]
    } else {
        Seq::empty()
    };
    let round = if m.loop_detected {
        seq!["loop detected (repeated adjacent tool calls)"@]
    } else {
        Seq::empty()
    };
    steps + cost + forbidden_used(forbidden, m) + round
}

/// How many of the assertions ask the judge.
pub open spec fn judge_count(assertions: Seq<Assertion>) -> nat
    decreases assertions.len(),
{
    if assertions.len() == 0 {
        0
    } else {
        judge_count(assertions.drop_last()) + if assertions.last() is Judge {
            1nat
        } else {
            0
        }
    }
}

/// The rubrics of the assertions that ask the judge, in order.
pub open spec fn rubrics(assertions: Seq<Assertion>) -> Seq<Seq<char>>
    decreases assertions.len(),
{
    if assertions.len() == 0 {
        Seq::empty()
    } else {
        let rest = rubrics(assertions.drop_last());
        match assertions.last() {
            Assertion::Judge { rubric } => rest.push(rubric@),
            _ => rest,
        }
    }
}

/// What the assertions find wrong, where the verdicts are those of the judge, in order.
pub open spec fn assertion_failures(
    assertions: Seq<Assertion>,
    m: MetricsV,
    verdicts: Seq<VerdictV>,
) -> Seq<Seq<char>>
    decreases assertions.len(),
{
    if assertions.len() == 0 {
        Seq::empty()
    } else {
        let front = assertions.drop_last();
        let rest = assertion_failures(front, m, verdicts);
        match assertions.last() {
            Assertion::Trajectory { max_steps, max_tokens, forbidden_tools } => rest
                + trajectory_failures(max_steps, max_tokens, texts(forbidden_tools@), m),
            Assertion::Judge { rubric: _ } => {
                let v = verdicts[judge_count(front) as int];
                if v.pass {
                    rest
                } else {
                    rest.push("judge: "@ + v.rationale)
                }
            },
        }
    }
}

/// The views of verdicts.
pub open spec fn verdicts_view(s: Seq<JudgeVerdict>) -> Seq<VerdictV> {
    s.map_values(|v: JudgeVerdict| v@)
}

/// The report of a task with these failures.
pub open spec fn report_of(
    name: Seq<char>,
    judge: Option<VerdictV>,
    metrics: MetricsV,
    failures: Seq<Seq<char>>,
) -> TaskReportV {
    TaskReportV {
        name,
        pass: failures.len() == 0,
        judge,
        metrics,
        failure: if failures.len() == 0 {
            None
        } else {
            Some(join(failures, "; "@))
        },
    }
}

/// What came of a task: `run_error` is how its run failed, if it did, and the verdicts are those of
/// the judge on its answer, in the order of the assertions.
pub open spec fn assessment(
    name: Seq<char>,
    assertions: Seq<Assertion>,
    metrics: MetricsV,
    run_error: Option<Seq<char>>,
    verdicts: Seq<VerdictV>,
) -> TaskReportV {
    match run_error {
        Some(e) => report_of(name, None, metrics, seq!["agent run failed: "@ + e]),
        None => report_of(
            name,
            if judge_count(assertions) == 0 {
                None
            } else {
                Some(verdicts[judge_count(assertions) - 1])
            },
            metrics,
            assertion_failures(assertions, metrics, verdicts),
        ),
    }
}

fn add(list: &mut Vec<String>, text: String)
    ensures
        texts(final(list)@) == texts(old(list)@).push(text@),
{
    let ghost before = texts(list@);
    list.push(text);
    assert(texts(list@) =~= before.push(text@));
}

fn check_trajectory(
    out: &mut Vec<String>,
    max_steps: Option<u32>,
    max_tokens: Option<u64>,
    forbidden: &[String],
    m: &TrajectoryMetrics,
)
    requires
        m@.prompt_tokens + m@.completion_tokens <= u64::MAX,
    ensures
        texts(final(out)@) == texts(old(out)@) + trajectory_failures(
            max_steps,
            max_tokens,
            texts(forbidden@),
            m@,
        ),
{
    let ghost start = texts(out@);
    let ghost steps = if max_steps is Some && m@.steps > max_steps->0 {
        seq!["steps "@ + decimal(m@.steps as nat) + " > max "@ + decimal(max_steps->0 as nat)]
    } else {
        Seq::empty()
    };
    match max_steps {
        Some(limit) => {
            if m.steps > limit {
                let head = concat3("steps ", decimal_u64(m.steps as u64).as_str(), " > max ");
                self::add(out, concat2(head.as_str(), decimal_u64(limit as u64).as_str()));
            }
        },
        None => {},
    }
    assert(texts(out@) =~= start + steps);
    let total: u64 = m.prompt_tokens + m.completion_tokens;
    let ghost cost = if max_tokens is Some && total > max_tokens->0 {
        seq!["tokens "@ + decimal(total as nat) + " > max "@ + decimal(max_tokens->0 as nat)]
    } else {
        Seq::empty()
    };
    match max_tokens {
        Some(limit) => {
            if total > limit {
                let head = concat3("tokens ", decimal_u64(total).as_str(), " > max ");
                self::add(out, concat2(head.as_str(), decimal_u64(limit).as_str()));
            }
        },
        None => {},
    }
    assert(texts(out@) =~= start + steps + cost);
    let ghost before = texts(out@);
    let ghost all = texts(forbidden@);
    assert(before + forbidden_used(all.take(0), m@) =~= before);
    let mut i: usize = 0;
    while i < forbidden.len()
        invariant
            i <= forbidden@.len(),
            all == texts(forbidden@),
            texts(out@) == before + forbidden_used(all.take(i as int), m@),
        decreases forbidden@.len() - i,
    {
        assert(all.take(i + 1).drop_last() =~= all.take(i as int));
        assert(all.take(i + 1).last() == forbidden@[i as int]@);
        let ghost now = forbidden_used(all.take(i as int), m@);
        if m.tool_calls.get(forbidden[i].as_str()).is_some() {
            let line = concat2("forbidden tool used: ", forbidden[i].as_str());
            self::add(out, line);
            assert(texts(out@) =~= before + now.push(line@));
        }
        i += 1;
    }
    assert(all.take(forbidden@.len() as int) =~= all);
    let ghost used = forbidden_used(all, m@);
    if m.loop_detected {
        self::add(out, owned("loop detected (repeated adjacent tool calls)"));
    }
    assert(texts(out@) =~= start + trajectory_failures(max_steps, max_tokens, all, m@));
}

fn make_report(
    name: &str,
    judge: Option<JudgeVerdict>,
    metrics: TrajectoryMetrics,
    failures: Vec<String>,
) -> (r: TaskReport)
    ensures
        r@ == report_of(
            name@,
            match judge {
                Some(j) => Some(j@),
                None => None,
            },
            metrics@,
            texts(failures@),
        ),
{
    assert(texts(failures@).len() == failures@.len());
    let pass = failures.len() == 0;
    let failure = if pass {
        None
    } else {
        Some(joined(failures.as_slice(), "; "))
    };
    TaskReport { name: owned(name), pass, judge, metrics, failure }
}

/// The rubrics by which the judge is asked about the answer, in order. After a run that failed there
/// is no answer, and the judge is not asked.
pub fn rubrics_to_judge(task: &EvalTask, run_error: &Option<String>) -> (r: Vec<String>)
    ensures
        texts(r@) == if run_error is Some {
            Seq::empty()
        } else {
            rubrics(task.assertions@)
        },
        r@.len() == if run_error is Some {
            0
        } else {
            judge_count(task.assertions@)
        },
        run_error is None ==> selects(
            task.assertions@,
            texts(r@),
            crate::eval::laws::asks_judge(),
            crate::eval::laws::its_rubric(),
        ),
{
    proof {
        crate::eval::laws::lemma_every_rubric(task.assertions@);
    }
    let mut out: Vec<String> = Vec::new();
    assert(texts(out@) =~= Seq::empty());
    if run_error.is_some() {
        return out;
    }
    let ghost all = task.assertions@;
    let mut i: usize = 0;
    while i < task.assertions.len()
        invariant
            i <= task.assertions@.len(),
            all == task.assertions@,
            texts(out@) == rubrics(all.take(i as int)),
            out@.len() == judge_count(all.take(i as int)),
        decreases task.assertions@.len() - i,
    {
        assert(all.take(i + 1).drop_last() =~= all.take(i as int));
        assert(all.take(i + 1).last() == all[i as int]);
        match &task.assertions[i] {
            Assertion::Judge { rubric } => {
                self::add(&mut out, rubric.clone());
                assert(texts(out@).len() == out@.len());
            },
            Assertion::Trajectory { .. } => {},
        }
        i += 1;
    }
    assert(all.take(task.assertions@.len() as int) =~= all);
    out
}

/// What came of a task: `run_error` is how its run failed, if it did, and the verdicts are those of
/// the judge on its answer, in the order of the assertions.
pub fn assess(
    task: &EvalTask,
    metrics: TrajectoryMetrics,
    run_error: Option<String>,
    verdicts: &[JudgeVerdict],
) -> (r: TaskReport)
    requires
        metrics@.prompt_tokens + metrics@.completion_tokens <= u64::MAX,
        run_error is None ==> judge_count(task.assertions@) <= verdicts@.len(),
    ensures
        r@ == assessment(
            task.name@,
            task.assertions@,
            metrics@,
            run_error.deep_view(),
            verdicts_view(verdicts@),
        ),
{
    let mut failures: Vec<String> = Vec::new();
    assert(texts(failures@) =~= Seq::empty());
    match run_error {
        Some(e) => {
            self::add(&mut failures, concat2("agent run failed: ", e.as_str()));
            assert(texts(failures@) =~= seq!["agent run failed: "@ + e@]);
            return make_report(task.name.as_str(), None, metrics, failures);
        },
        None => {},
    }
    let ghost all = task.assertions@;
    let ghost found = verdicts_view(verdicts@);
    let mut judged: usize = 0;
    let mut i: usize = 0;
    while i < task.assertions.len()
        invariant
            i <= task.assertions@.len(),
            all == task.assertions@,
            found == verdicts_view(verdicts@),
            metrics@.prompt_tokens + metrics@.completion_tokens <= u64::MAX,
            judge_count(all) <= verdicts@.len(),
            judged == judge_count(all.take(i as int)),
            texts(failures@) == assertion_failures(all.take(i as int), metrics@, found),
        decreases task.assertions@.len() - i,
    {
        let ghost before = texts(failures@);
        assert(all.take(i + 1).drop_last() =~= all.take(i as int));
        assert(all.take(i + 1).last() == all[i as int]);
        proof {
            lemma_judge_count_grows(all, i + 1);
        }
        match &task.assertions[i] {
            Assertion::Trajectory { max_steps, max_tokens, forbidden_tools } => {
                check_trajectory(
                    &mut failures,
                    *max_steps,
                    *max_tokens,
                    forbidden_tools.as_slice(),
                    &metrics,
                );
            },
            Assertion::Judge { rubric: _ } => {
                assert(found[judged as int] == verdicts@[judged as int]@);
                if !verdicts[judged].pass {
                    self::add(
                        &mut failures,
                        concat2("judge: ", verdicts[judged].rationale.as_str()),
                    );
                }
                judged += 1;
            },
        }
        i += 1;
    }
    assert(all.take(task.assertions@.len() as int) =~= all);
    let judge = if judged == 0 {
        None
    } else {
        assert(found[judged - 1] == verdicts@[judged - 1]@);
        Some(verdicts[judged - 1].dup())
    };
    make_report(task.name.as_str(), judge, metrics, failures)
}

proof fn lemma_judge_count_grows(assertions: Seq<Assertion>, n: int)
    requires
        0 <= n <= assertions.len(),
    ensures
        judge_count(assertions.take(n)) <= judge_count(assertions),
    decreases assertions.len(),
{
    if n < assertions.len() {
        assert(assertions.drop_last().take(n) =~= assertions.take(n));
        lemma_judge_count_grows(assertions.drop_last(), n);
    } else {
        assert(assertions.take(n) =~= assertions);
    }
}

/// A task that passed has no failure, and one that did not says why.
pub proof fn lemma_pass_means_no_failure(
    name: Seq<char>,
    assertions: Seq<Assertion>,
    metrics: MetricsV,
    run_error: Option<Seq<char>>,
    verdicts: Seq<VerdictV>,
)
    ensures
        ({
            let r = assessment(name, assertions, metrics, run_error, verdicts);
            &&& r.pass <==> r.failure is None
            &&& run_error is Some ==> !r.pass && r.judge is None
        }),
{
}

// ---- a broken tool ----

/// A tool that answers nothing, to show that a regression is found.
#[derive(Debug)]
pub struct BrokenTool {
    pub name: String,
}

impl BrokenTool {
    pub fn name(&self) -> (r: &str)
        ensures
            r@ == self.name@,
    {
        self.name.as_str()
    }

    pub fn description(&self) -> (r: &'static str)
        ensures
            r@ == "broken on purpose (regression-capture demo)"@,
    {
        "broken on purpose (regression-capture demo)"
    }

    pub fn input_schema(&self) -> (r: Json)
        ensures
            r@ == JsonV::Object(
                seq![
                    ("type"@, JsonV::Text("object"@)),
                    ("properties"@, JsonV::Object(Seq::empty())),
                ],
            ),
    {
        let mut fields: Vec<(String, Json)> = Vec::new();
        put(&mut fields, "type", json_str("object"));
        put(&mut fields, "properties", object(Vec::new()));
        assert(fields_view(fields@) =~= seq![
            ("type"@, JsonV::Text("object"@)),
            ("properties"@, JsonV::Object(Seq::empty())),
        ]);
        object(fields)
    }

    /// Nothing, whatever the input.
    pub fn execute(&self, _input: &Json) -> (r: String)
        ensures
            r@ == ""@,
    {
        owned("")
    }
}

// ---- masks of a task ----

/// The masks with one more for the path of the workspace.
pub open spec fn with_workspace(
    rules: Seq<(Seq<char>, Seq<char>)>,
    path: Seq<char>,
) -> Seq<(Seq<char>, Seq<char>)> {
    if path.len() == 0 {
        rules
    } else {
        rules.push((regex_escaped(path), "<WORKSPACE>"@))
    }
}

/// The masks of a task: those of the recording, and the path of the workspace as it was made and
/// as it is resolved, where it can be.
pub fn task_masks(base: &MaskRules, workdir: &str, resolved: Option<&str>) -> (r: MaskRules)
    ensures
        r@ == match resolved {
            Some(p) => with_workspace(with_workspace(base@, workdir@), p@),
            None => with_workspace(base@, workdir@),
        },
{
    let masks = base.dup().with_literal(workdir, "<WORKSPACE>");
    match resolved {
        Some(p) => masks.with_literal(p, "<WORKSPACE>"),
        None => masks,
    }
}

/// The report of a task whose workspace could not be made.
pub fn not_staged(task: &EvalTask, e: &str) -> (r: TaskReport)
    ensures
        r@ == (TaskReportV {
            name: task.name@,
            pass: false,
            judge: None,
            metrics: no_metrics(),
            failure: Some("workspace staging failed: "@ + e@),
        }),
{
    TaskReport::failed(task.name.clone(), concat2("workspace staging failed: ", e))
}

} // verus!

//! Reports of evaluation runs, and what got worse from one to the next.

use vstd::prelude::*;

use crate::eval::judge::{JudgeVerdict, VerdictV};
use crate::eval::trajectory::{no_metrics, MetricsV, TrajectoryMetrics};
use crate::text::{
    char_count, concat2, concat3, decimal, decimal_u64, owned, str_eq, texts,
};

verus! {

broadcast use vstd::string::group_string_axioms;

/// How much the tokens may grow, in percent, before a warning is due.
pub const TOKEN_WARNING_THRESHOLD_PCT: u64 = 20;

/// What came of a task.
#[derive(Debug)]
pub struct TaskReport {
    pub name: String,
    pub pass: bool,
    pub judge: Option<JudgeVerdict>,
    pub metrics: TrajectoryMetrics,
    /// Why it failed.
    pub failure: Option<String>,
}

/// What came of a task, with texts as sequences of characters.
#[verifier::ext_equal]
pub struct TaskReportV {
    pub name: Seq<char>,
    pub pass: bool,
    pub judge: Option<VerdictV>,
    pub metrics: MetricsV,
    pub failure: Option<Seq<char>>,
}

impl View for TaskReport {
    type V = TaskReportV;

    open spec fn view(&self) -> TaskReportV {
        TaskReportV {
            name: self.name@,
            pass: self.pass,
            judge: match self.judge {
                Some(j) => Some(j@),
                None => None,
            },
            metrics: self.metrics@,
            failure: self.failure.deep_view(),
        }
    }
}

pub open spec fn reports_view(s: Seq<TaskReport>) -> Seq<TaskReportV> {
    s.map_values(|t: TaskReport| t@)
}

impl TaskReport {
    /// A task that failed before it ran.
    pub fn failed(name: String, reason: String) -> (r: Self)
        ensures
            r@ == (TaskReportV {
                name: name@,
                pass: false,
                judge: None,
                metrics: no_metrics(),
                failure: Some(reason@),
            }),
    {
        TaskReport {
            name,
            pass: false,
            judge: None,
            metrics: TrajectoryMetrics::default(),
            failure: Some(reason),
        }
    }
}

/// How many of the tasks passed.
pub open spec fn passed_count(tasks: Seq<TaskReportV>) -> nat
    decreases tasks.len(),
{
    if tasks.len() == 0 {
        0
    } else {
        passed_count(tasks.drop_last()) + if tasks.last().pass {
            1nat
        } else {
            0
        }
    }
}

/// The tokens of all tasks.
pub open spec fn token_sum(tasks: Seq<TaskReportV>) -> nat
    decreases tasks.len(),
{
    if tasks.len() == 0 {
        0
    } else {
        token_sum(tasks.drop_last()) + tasks.last().metrics.prompt_tokens as nat
            + tasks.last().metrics.completion_tokens as nat
    }
}

proof fn lemma_token_sum_grows(tasks: Seq<TaskReportV>, n: int)
    requires
        0 <= n <= tasks.len(),
    ensures
        token_sum(tasks.take(n)) <= token_sum(tasks),
    decreases tasks.len(),
{
    if n < tasks.len() {
        assert(tasks.drop_last().take(n) =~= tasks.take(n));
        lemma_token_sum_grows(tasks.drop_last(), n);
    } else {
        assert(tasks.take(n) =~= tasks);
    }
}

/// The first task of the name.
pub open spec fn find_report(tasks: Seq<TaskReportV>, name: Seq<char>) -> Option<TaskReportV>
    decreases tasks.len(),
{
    if tasks.len() == 0 {
        None
    } else if tasks[0].name == name {
        Some(tasks[0])
    } else {
        find_report(tasks.skip(1), name)
    }
}

/// A run of a suite.
#[derive(Debug)]
pub struct RunReport {
    pub suite: String,
    pub mode: String,
    pub timestamp: String,
    pub tasks: Vec<TaskReport>,
}

/// The text with spaces behind it up to the width.
pub open spec fn pad_right(s: Seq<char>, width: nat) -> Seq<char> {
    if s.len() < width {
        s + Seq::new((width - s.len()) as nat, |i: int| ' ')
    } else {
        s
    }
}

/// The text with spaces in front of it up to the width.
pub open spec fn pad_left(s: Seq<char>, width: nat) -> Seq<char> {
    if s.len() < width {
        Seq::new((width - s.len()) as nat, |i: int| ' ') + s
    } else {
        s
    }
}

fn spaces(n: usize) -> (r: String)
    ensures
        r@ == Seq::new(n as nat, |i: int| ' '),
{
    let mut out = String::new();
    let mut i: usize = 0;
    while i < n
        invariant
            i <= n,
            out@ == Seq::new(i as nat, |k: int| ' '),
        decreases n - i,
    {
        out.push(' ');
        i += 1;
        assert(out@ =~= Seq::new(i as nat, |k: int| ' '));
    }
    out
}

fn left_aligned(s: &str, width: usize) -> (r: String)
    ensures
        r@ == pad_right(s@, width as nat),
{
    let n: usize = char_count(s);
    if n < width {
        concat2(s, spaces(width - n).as_str())
    } else {
        owned(s)
    }
}

fn right_aligned(s: &str, width: usize) -> (r: String)
    ensures
        r@ == pad_left(s@, width as nat),
{
    let n: usize = char_count(s);
    if n < width {
        concat2(spaces(width - n).as_str(), s)
    } else {
        owned(s)
    }
}

/// A row of the table.
pub open spec fn table_row(
    name: Seq<char>,
    result: Seq<char>,
    steps: Seq<char>,
    tok_in: Seq<char>,
    tok_out: Seq<char>,
    wall: Seq<char>,
) -> Seq<char> {
    pad_right(name, 28) + " "@ + pad_right(result, 6) + " "@ + pad_left(steps, 5) + " "@ + pad_left(
        tok_in,
        8,
    ) + " "@ + pad_left(tok_out, 8) + " "@ + pad_left(wall, 10) + "\n"@
}

fn make_row(name: &str, result: &str, steps: &str, tok_in: &str, tok_out: &str, wall: &str) -> (r:
    String)
    ensures
        r@ == table_row(name@, result@, steps@, tok_in@, tok_out@, wall@),
{
    let a = concat3(left_aligned(name, 28).as_str(), " ", left_aligned(result, 6).as_str());
    let b = concat3(a.as_str(), " ", right_aligned(steps, 5).as_str());
    let c = concat3(b.as_str(), " ", right_aligned(tok_in, 8).as_str());
    let d = concat3(c.as_str(), " ", right_aligned(tok_out, 8).as_str());
    let e = concat3(d.as_str(), " ", right_aligned(wall, 10).as_str());
    concat2(e.as_str(), "\n")
}

/// The lines of a task in the table.
pub open spec fn task_rows(t: TaskReportV) -> Seq<char> {
    let row = table_row(
        t.name,
        if t.pass {
            "PASS"@
        } else {
            "FAIL"@
        },
        decimal(t.metrics.steps as nat),
        decimal(t.metrics.prompt_tokens as nat),
        decimal(t.metrics.completion_tokens as nat),
        decimal(t.metrics.wall_ms as nat),
    );
    let judged = match t.judge {
        Some(j) => "    -> judge("@ + j.score + "): "@ + j.rationale + "\n"@,
        None => Seq::empty(),
    };
    let why = match t.failure {
        Some(f) => "    -> "@ + f + "\n"@,
        None => Seq::empty(),
    };
    row + judged + why
}

/// The lines of the tasks in the table.
pub open spec fn all_rows(tasks: Seq<TaskReportV>) -> Seq<char>
    decreases tasks.len(),
{
    if tasks.len() == 0 {
        Seq::empty()
    } else {
        all_rows(tasks.drop_last()) + task_rows(tasks.last())
    }
}

fn task_lines(t: &TaskReport) -> (r: String)
    ensures
        r@ == task_rows(t@),
{
    let row = make_row(
        t.name.as_str(),
        if t.pass {
            "PASS"
        } else {
            "FAIL"
        },
        decimal_u64(t.metrics.steps as u64).as_str(),
        decimal_u64(t.metrics.prompt_tokens).as_str(),
        decimal_u64(t.metrics.completion_tokens).as_str(),
        decimal_u64(t.metrics.wall_ms).as_str(),
    );
    let judged = match &t.judge {
        Some(j) => {
            let head = concat3("    -> judge(", j.score.as_str(), "): ");
            concat3(head.as_str(), j.rationale.as_str(), "\n")
        },
        None => String::new(),
    };
    let why = match &t.failure {
        Some(f) => concat3("    -> ", f.as_str(), "\n"),
        None => String::new(),
    };
    concat3(row.as_str(), judged.as_str(), why.as_str())
}

impl RunReport {
    pub fn new(suite: String, mode: String, timestamp: String, tasks: Vec<TaskReport>) -> (r: Self)
        ensures
            r.suite == suite,
            r.mode == mode,
            r.timestamp == timestamp,
            r.tasks == tasks,
    {
        RunReport { suite, mode, timestamp, tasks }
    }

    /// How many tasks passed.
    pub fn passed(&self) -> (r: usize)
        ensures
            r == passed_count(reports_view(self.tasks@)),
            r <= self.tasks@.len(),
    {
        let ghost all = reports_view(self.tasks@);
        let mut n: usize = 0;
        let mut i: usize = 0;
        while i < self.tasks.len()
            invariant
                i <= self.tasks@.len(),
                all == reports_view(self.tasks@),
                n <= i,
                n == passed_count(all.take(i as int)),
            decreases self.tasks@.len() - i,
        {
            assert(all.take(i + 1).drop_last() =~= all.take(i as int));
            assert(all.take(i + 1).last() == self.tasks@[i as int]@);
            if self.tasks[i].pass {
                n += 1;
            }
            i += 1;
        }
        assert(all.take(self.tasks@.len() as int) =~= all);
        n
    }

    /// Prompt and completion tokens of all tasks.
    pub fn total_tokens(&self) -> (r: u64)
        requires
            token_sum(reports_view(self.tasks@)) <= u64::MAX,
        ensures
            r == token_sum(reports_view(self.tasks@)),
    {
        let ghost all = reports_view(self.tasks@);
        let mut sum: u64 = 0;
        let mut i: usize = 0;
        while i < self.tasks.len()
            invariant
                i <= self.tasks@.len(),
                all == reports_view(self.tasks@),
                token_sum(all) <= u64::MAX,
                sum == token_sum(all.take(i as int)),
            decreases self.tasks@.len() - i,
        {
            let t = &self.tasks[i];
            assert(all.take(i + 1).drop_last() =~= all.take(i as int));
            assert(all.take(i + 1).last() == t@);
            proof {
                lemma_token_sum_grows(all, i + 1);
            }
            sum = sum + t.metrics.prompt_tokens + t.metrics.completion_tokens;
            i += 1;
        }
        assert(all.take(self.tasks@.len() as int) =~= all);
        sum
    }

    /// The table of the run, where `rate` is the success rate in percent.
    pub fn render_table(&self, rate: &str) -> (r: String)
        ensures
            r@ == "suite: "@ + self.suite@ + "  mode: "@ + self.mode@ + "  success rate: "@ + rate@
                + "%\n"@ + table_row(
                "TASK"@,
                "RESULT"@,
                "STEPS"@,
                "TOK_IN"@,
                "TOK_OUT"@,
                "WALL_MS"@,
            ) + all_rows(reports_view(self.tasks@)),
    {
        let ghost all = reports_view(self.tasks@);
        let mut rows = String::new();
        assert(rows@ =~= all_rows(all.take(0)));
        let mut i: usize = 0;
        while i < self.tasks.len()
            invariant
                i <= self.tasks@.len(),
                all == reports_view(self.tasks@),
                rows@ == all_rows(all.take(i as int)),
            decreases self.tasks@.len() - i,
        {
            assert(all.take(i + 1).drop_last() =~= all.take(i as int));
            assert(all.take(i + 1).last() == self.tasks@[i as int]@);
            rows = concat2(rows.as_str(), task_lines(&self.tasks[i]).as_str());
            i += 1;
        }
        assert(all.take(self.tasks@.len() as int) =~= all);
        let a = concat3("suite: ", self.suite.as_str(), "  mode: ");
        let b = concat3(a.as_str(), self.mode.as_str(), "  success rate: ");
        let head = concat3(b.as_str(), rate, "%\n");
        let titles = make_row("TASK", "RESULT", "STEPS", "TOK_IN", "TOK_OUT", "WALL_MS");
        concat3(head.as_str(), titles.as_str(), rows.as_str())
    }

    /// The file of the report in the directory.
    pub fn file_name(&self) -> (r: String)
        ensures
            r@ == self.timestamp@ + "-"@ + self.suite@ + ".json"@,
    {
        let head = concat3(self.timestamp.as_str(), "-", self.suite.as_str());
        concat2(head.as_str(), ".json")
    }
}

// ---- comparison ----

/// What changed from one run to the next.
#[derive(Debug)]
pub struct CompareReport {
    /// Passed before and fails now.
    pub newly_failed: Vec<String>,
    /// Failed before and passes now.
    pub recovered: Vec<String>,
    pub tokens_baseline: u64,
    pub tokens_candidate: u64,
    /// The tokens grew by more than the threshold.
    pub token_warning: bool,
    /// Goes round in circles now and did not before.
    pub new_loops: Vec<String>,
}

/// The mathematical value of what changed.
#[verifier::ext_equal]
pub struct CompareV {
    pub newly_failed: Seq<Seq<char>>,
    pub recovered: Seq<Seq<char>>,
    pub tokens_baseline: nat,
    pub tokens_candidate: nat,
    pub token_warning: bool,
    pub new_loops: Seq<Seq<char>>,
}

impl View for CompareReport {
    type V = CompareV;

    open spec fn view(&self) -> CompareV {
        CompareV {
            newly_failed: texts(self.newly_failed@),
            recovered: texts(self.recovered@),
            tokens_baseline: self.tokens_baseline as nat,
            tokens_candidate: self.tokens_candidate as nat,
            token_warning: self.token_warning,
            new_loops: texts(self.new_loops@),
        }
    }
}

/// The task passed in the run.
pub open spec fn passed_in(tasks: Seq<TaskReportV>, name: Seq<char>) -> bool {
    find_report(tasks, name) matches Some(t) && t.pass
}

/// The task went round in circles in the run.
pub open spec fn looped_in(tasks: Seq<TaskReportV>, name: Seq<char>) -> bool {
    find_report(tasks, name) matches Some(t) && t.metrics.loop_detected
}

/// The tasks among these that do not pass here and pass in the other run, in their order here.
pub open spec fn turned(among: Seq<TaskReportV>, other: Seq<TaskReportV>) -> Seq<Seq<char>>
    decreases among.len(),
{
    if among.len() == 0 {
        Seq::empty()
    } else {
        let rest = turned(among.drop_last(), other);
        let t = among.last();
        if !t.pass && passed_in(other, t.name) {
            rest.push(t.name)
        } else {
            rest
        }
    }
}

/// The tasks among these that go round in circles, and did not in the other run.
pub open spec fn new_loops_of(among: Seq<TaskReportV>, other: Seq<TaskReportV>) -> Seq<Seq<char>>
    decreases among.len(),
{
    if among.len() == 0 {
        Seq::empty()
    } else {
        let rest = new_loops_of(among.drop_last(), other);
        let t = among.last();
        if t.metrics.loop_detected && !looped_in(other, t.name) {
            rest.push(t.name)
        } else {
            rest
        }
    }
}

/// The tokens grew by more than the threshold. From nothing there is no growth to speak of.
pub open spec fn grew_too_much(baseline: nat, candidate: nat) -> bool {
    baseline > 0 && (candidate - baseline) * 100 > baseline * TOKEN_WARNING_THRESHOLD_PCT
}

/// What changed from the tasks of one run to those of the next.
pub open spec fn comparison(baseline: Seq<TaskReportV>, candidate: Seq<TaskReportV>) -> CompareV {
    CompareV {
        newly_failed: turned(candidate, baseline),
        recovered: turned(baseline, candidate),
        tokens_baseline: token_sum(baseline),
        tokens_candidate: token_sum(candidate),
        token_warning: grew_too_much(token_sum(baseline), token_sum(candidate)),
        new_loops: new_loops_of(candidate, baseline),
    }
}

fn find_index(tasks: &[TaskReport], name: &str) -> (r: Option<usize>)
    ensures
        match r {
            Some(k) => k < tasks@.len() && find_report(reports_view(tasks@), name@) == Some(
                tasks@[k as int]@,
            ),
            None => find_report(reports_view(tasks@), name@) is None,
        },
{
    let ghost all = reports_view(tasks@);
    assert(all.skip(0) =~= all);
    let mut i: usize = 0;
    while i < tasks.len()
        invariant
            i <= tasks@.len(),
            all == reports_view(tasks@),
            find_report(all, name@) == find_report(all.skip(i as int), name@),
        decreases tasks@.len() - i,
    {
        assert(all.skip(i as int)[0] == tasks@[i as int]@);
        if str_eq(tasks[i].name.as_str(), name) {
            return Some(i);
        }
        assert(all.skip(i as int).skip(1) =~= all.skip(i + 1));
        i += 1;
    }
    None
}

fn list_turned(among: &[TaskReport], other: &[TaskReport]) -> (r: Vec<String>)
    ensures
        texts(r@) == turned(reports_view(among@), reports_view(other@)),
{
    let ghost all = reports_view(among@);
    let ghost o = reports_view(other@);
    let mut out: Vec<String> = Vec::new();
    assert(texts(out@) =~= turned(all.take(0), o));
    let mut i: usize = 0;
    while i < among.len()
        invariant
            i <= among@.len(),
            all == reports_view(among@),
            o == reports_view(other@),
            texts(out@) == turned(all.take(i as int), o),
        decreases among@.len() - i,
    {
        let t = &among[i];
        let ghost before = texts(out@);
        assert(all.take(i + 1).drop_last() =~= all.take(i as int));
        assert(all.take(i + 1).last() == t@);
        let was = match find_index(other, t.name.as_str()) {
            Some(k) => other[k].pass,
            None => false,
        };
        if !t.pass && was {
            out.push(t.name.clone());
            assert(texts(out@) =~= before.push(t@.name));
        }
        i += 1;
    }
    assert(all.take(among@.len() as int) =~= all);
    out
}

fn list_new_loops(among: &[TaskReport], other: &[TaskReport]) -> (r: Vec<String>)
    ensures
        texts(r@) == new_loops_of(reports_view(among@), reports_view(other@)),
{
    let ghost all = reports_view(among@);
    let ghost o = reports_view(other@);
    let mut out: Vec<String> = Vec::new();
    assert(texts(out@) =~= new_loops_of(all.take(0), o));
    let mut i: usize = 0;
    while i < among.len()
        invariant
            i <= among@.len(),
            all == reports_view(among@),
            o == reports_view(other@),
            texts(out@) == new_loops_of(all.take(i as int), o),
        decreases among@.len() - i,
    {
        let t = &among[i];
        let ghost before = texts(out@);
        assert(all.take(i + 1).drop_last() =~= all.take(i as int));
        assert(all.take(i + 1).last() == t@);
        let was = match find_index(other, t.name.as_str()) {
            Some(k) => other[k].metrics.loop_detected,
            None => false,
        };
        if t.metrics.loop_detected && !was {
            out.push(t.name.clone());
            assert(texts(out@) =~= before.push(t@.name));
        }
        i += 1;
    }
    assert(all.take(among@.len() as int) =~= all);
    out
}

/// What changed from the baseline to the candidate.
pub fn compare(baseline: &RunReport, candidate: &RunReport) -> (r: CompareReport)
    requires
        token_sum(reports_view(baseline.tasks@)) <= u64::MAX,
        token_sum(reports_view(candidate.tasks@)) <= u64::MAX,
    ensures
        r@ == comparison(reports_view(baseline.tasks@), reports_view(candidate.tasks@)),
{
    let tokens_baseline: u64 = baseline.total_tokens();
    let tokens_candidate: u64 = candidate.total_tokens();
    let base: u128 = tokens_baseline as u128;
    let grown: u128 = tokens_candidate as u128;
    let token_warning = base > 0 && grown > base && (grown - base) * 100 > base
        * TOKEN_WARNING_THRESHOLD_PCT as u128;
    CompareReport {
        newly_failed: list_turned(candidate.tasks.as_slice(), baseline.tasks.as_slice()),
        recovered: list_turned(baseline.tasks.as_slice(), candidate.tasks.as_slice()),
        tokens_baseline,
        tokens_candidate,
        token_warning,
        new_loops: list_new_loops(candidate.tasks.as_slice(), baseline.tasks.as_slice()),
    }
}

/// A line for each name.
pub open spec fn name_lines(lead: Seq<char>, names: Seq<Seq<char>>) -> Seq<char>
    decreases names.len(),
{
    if names.len() == 0 {
        Seq::empty()
    } else {
        name_lines(lead, names.drop_last()) + (lead + names.last() + "\n"@)
    }
}

fn list_names(lead: &str, names: &[String]) -> (r: String)
    ensures
        r@ == name_lines(lead@, texts(names@)),
{
    let ghost all = texts(names@);
    let mut out = String::new();
    assert(out@ =~= name_lines(lead@, all.take(0)));
    let mut i: usize = 0;
    while i < names.len()
        invariant
            i <= names@.len(),
            all == texts(names@),
            out@ == name_lines(lead@, all.take(i as int)),
        decreases names@.len() - i,
    {
        assert(all.take(i + 1).drop_last() =~= all.take(i as int));
        assert(all.take(i + 1).last() == names@[i as int]@);
        out = concat2(out.as_str(), concat3(lead, names[i].as_str(), "\n").as_str());
        i += 1;
    }
    assert(all.take(names@.len() as int) =~= all);
    out
}

/// The numbers of a comparison as they are shown: the success rates in percent, their difference in
/// points, and the growth of the tokens in percent.
#[derive(Debug)]
pub struct CompareNumbers {
    pub rate_baseline: String,
    pub rate_candidate: String,
    pub rate_delta: String,
    pub token_increase: String,
}

/// The comparison for people to read.
pub fn render_compare(c: &CompareReport, n: &CompareNumbers) -> (r: String)
    ensures
        r@ == "success rate: baseline "@ + n.rate_baseline@ + "% -> candidate "@ + n.rate_candidate@
            + "%  ("@ + n.rate_delta@ + " pts)\n"@ + name_lines(
            "  NEWLY FAILED: "@,
            texts(c.newly_failed@),
        ) + name_lines("  recovered:    "@, texts(c.recovered@)) + (("tokens: "@ + decimal(
            c.tokens_baseline as nat,
        ) + " -> "@ + decimal(c.tokens_candidate as nat) + " ("@) + (n.token_increase@ + "%)\n"@))
            + (if c.token_warning {
            "  ! token cost increase exceeds threshold\n"@
        } else {
            Seq::empty()
        }) + name_lines("  NEW LOOP DETECTED: "@, texts(c.new_loops@)),
{
    let a = concat3("success rate: baseline ", n.rate_baseline.as_str(), "% -> candidate ");
    let b = concat3(a.as_str(), n.rate_candidate.as_str(), "%  (");
    let head = concat3(b.as_str(), n.rate_delta.as_str(), " pts)\n");
    let failed = list_names("  NEWLY FAILED: ", c.newly_failed.as_slice());
    let back = list_names("  recovered:    ", c.recovered.as_slice());
    let t = concat3("tokens: ", decimal_u64(c.tokens_baseline).as_str(), " -> ");
    let u = concat3(t.as_str(), decimal_u64(c.tokens_candidate).as_str(), " (");
    let tokens = concat2(u.as_str(), concat2(n.token_increase.as_str(), "%)\n").as_str());
    let warning = if c.token_warning {
        owned("  ! token cost increase exceeds threshold\n")
    } else {
        String::new()
    };
    let loops = list_names("  NEW LOOP DETECTED: ", c.new_loops.as_slice());
    let first = concat3(head.as_str(), failed.as_str(), back.as_str());
    let second = concat3(first.as_str(), tokens.as_str(), warning.as_str());
    concat2(second.as_str(), loops.as_str())
}

// ---- laws ----

proof fn lemma_turned_elements(among: Seq<TaskReportV>, other: Seq<TaskReportV>, k: int)
    requires
        0 <= k < among.len(),
        !among[k].pass,
        passed_in(other, among[k].name),
    ensures
        turned(among, other).contains(among[k].name),
    decreases among.len(),
{
    let rest = turned(among.drop_last(), other);
    let after = turned(among, other);
    if k < among.len() - 1 {
        assert(among.drop_last()[k] == among[k]);
        lemma_turned_elements(among.drop_last(), other, k);
        let i = choose|i: int| 0 <= i < rest.len() && rest[i] == among[k].name;
        assert(after[i] == among[k].name);
    } else {
        assert(after[after.len() - 1] == among[k].name);
    }
}

proof fn lemma_turned_only(among: Seq<TaskReportV>, other: Seq<TaskReportV>, name: Seq<char>)
    ensures
        turned(among, other).contains(name) ==> exists|k: int|
            0 <= k < among.len() && (#[trigger] among[k]).name == name && !among[k].pass && passed_in(
                other,
                name,
            ),
    decreases among.len(),
{
    if among.len() > 0 {
        let front = among.drop_last();
        let rest = turned(front, other);
        let after = turned(among, other);
        lemma_turned_only(front, other, name);
        if after.contains(name) {
            let i = choose|i: int| 0 <= i < after.len() && after[i] == name;
            if i < rest.len() {
                assert(rest[i] == name);
                let k = choose|k: int|
                    0 <= k < front.len() && (#[trigger] front[k]).name == name && !front[k].pass
                        && passed_in(other, name);
                assert(among[k] == front[k]);
            } else {
                assert(among[among.len() - 1].name == name);
            }
        }
    }
}

proof fn lemma_loops_named(among: Seq<TaskReportV>, other: Seq<TaskReportV>, name: Seq<char>)
    ensures
        new_loops_of(among, other).contains(name) <==> exists|k: int|
            0 <= k < among.len() && (#[trigger] among[k]).name == name
                && among[k].metrics.loop_detected && !looped_in(other, name),
    decreases among.len(),
{
    if among.len() > 0 {
        let front = among.drop_last();
        let rest = new_loops_of(front, other);
        let after = new_loops_of(among, other);
        lemma_loops_named(front, other, name);
        if after.contains(name) {
            let i = choose|i: int| 0 <= i < after.len() && after[i] == name;
            if i < rest.len() {
                assert(rest[i] == name);
                let k = choose|k: int|
                    0 <= k < front.len() && (#[trigger] front[k]).name == name
                        && front[k].metrics.loop_detected && !looped_in(other, name);
                assert(among[k] == front[k]);
            } else {
                assert(among[among.len() - 1].name == name);
            }
        }
        if exists|k: int|
            0 <= k < among.len() && (#[trigger] among[k]).name == name
                && among[k].metrics.loop_detected && !looped_in(other, name) {
            let k = choose|k: int|
                0 <= k < among.len() && (#[trigger] among[k]).name == name
                    && among[k].metrics.loop_detected && !looped_in(other, name);
            if k < front.len() {
                assert(front[k] == among[k]);
                let i = choose|i: int| 0 <= i < rest.len() && rest[i] == name;
                assert(after[i] == name);
            } else {
                assert(after[after.len() - 1] == name);
            }
        }
    }
}

/// A comparison the other way round has what recovered for what newly failed. A task is named as
/// newly failed if and only if it fails in the candidate and passed in the baseline, so one that the
/// baseline lacks is not; it is named for a new loop if and only if it loops in the candidate and did
/// not, or was not there, in the baseline. Without tokens in the baseline there is no warning.
pub proof fn lemma_comparison(
    baseline: Seq<TaskReportV>,
    candidate: Seq<TaskReportV>,
    name: Seq<char>,
)
    ensures
        comparison(baseline, candidate).newly_failed == comparison(candidate, baseline).recovered,
        comparison(baseline, candidate).recovered == comparison(candidate, baseline).newly_failed,
        comparison(baseline, candidate).newly_failed.contains(name) <==> exists|k: int|
            0 <= k < candidate.len() && (#[trigger] candidate[k]).name == name && !candidate[k].pass
                && passed_in(baseline, name),
        comparison(baseline, candidate).new_loops.contains(name) <==> exists|k: int|
            0 <= k < candidate.len() && (#[trigger] candidate[k]).name == name
                && candidate[k].metrics.loop_detected && !looped_in(baseline, name),
        token_sum(baseline) == 0 ==> !comparison(baseline, candidate).token_warning,
{
    lemma_turned_only(candidate, baseline, name);
    lemma_loops_named(candidate, baseline, name);
    if exists|k: int|
        0 <= k < candidate.len() && (#[trigger] candidate[k]).name == name && !candidate[k].pass
            && passed_in(baseline, name) {
        let k = choose|k: int|
            0 <= k < candidate.len() && (#[trigger] candidate[k]).name == name && !candidate[k].pass
                && passed_in(baseline, name);
        lemma_turned_elements(candidate, baseline, k);
    }
}

/// A run compared with itself shows no change: nothing failed newly, nothing recovered, no loop is
/// new, and there is no warning, where no name occurs twice.
pub proof fn lemma_same_run_no_change(tasks: Seq<TaskReportV>)
    requires
        forall|i: int, j: int|
            0 <= i < j < tasks.len() ==> (#[trigger] tasks[i]).name != (#[trigger] tasks[j]).name,
    ensures
        turned(tasks, tasks) == Seq::<Seq<char>>::empty(),
        new_loops_of(tasks, tasks) == Seq::<Seq<char>>::empty(),
        !grew_too_much(token_sum(tasks), token_sum(tasks)),
{
    assert forall|k: int| 0 <= k < tasks.len() implies find_report(
        tasks,
        (#[trigger] tasks[k]).name,
    ) == Some(tasks[k]) by {
        lemma_find_own(tasks, k);
    }
    lemma_nothing_turned(tasks, tasks);
}

proof fn lemma_find_own(tasks: Seq<TaskReportV>, k: int)
    requires
        0 <= k < tasks.len(),
        forall|i: int| 0 <= i < k ==> (#[trigger] tasks[i]).name != tasks[k].name,
    ensures
        find_report(tasks, tasks[k].name) == Some(tasks[k]),
    decreases k,
{
    if k > 0 {
        let rest = tasks.skip(1);
        assert(tasks[0].name != tasks[k].name);
        assert forall|i: int| 0 <= i < k - 1 implies (#[trigger] rest[i]).name != rest[k - 1].name by {
            assert(tasks[i + 1].name != tasks[k].name);
        }
        lemma_find_own(rest, k - 1);
        assert(rest[k - 1] == tasks[k]);
    }
}

proof fn lemma_nothing_turned(among: Seq<TaskReportV>, all: Seq<TaskReportV>)
    requires
        forall|k: int|
            0 <= k < among.len() ==> find_report(all, (#[trigger] among[k]).name) == Some(among[k]),
    ensures
        turned(among, all) == Seq::<Seq<char>>::empty(),
        new_loops_of(among, all) == Seq::<Seq<char>>::empty(),
    decreases among.len(),
{
    if among.len() > 0 {
        let front = among.drop_last();
        assert forall|k: int| 0 <= k < front.len() implies find_report(
            all,
            (#[trigger] front[k]).name,
        ) == Some(front[k]) by {
            assert(among[k] == front[k]);
        }
        lemma_nothing_turned(front, all);
        assert(find_report(all, among[among.len() - 1].name) == Some(among[among.len() - 1]));
    }
}

} // verus!

//! What an evaluation counts, finds and tells.

use vstd::prelude::*;

use crate::domain::message::{lemma_roles_differ, BlockV, MessageV, Usage};
use crate::eval::{
    assertion_failures, forbidden_used, judge_count, report_of, rubrics, trajectory_failures,
    with_workspace,
};
use crate::eval::cassette::{
    cassette_result, diff_text, drift_text, entry_lines, env_request, played_usage, recorded_usage,
    CassetteV, EntryV,
};
use crate::eval::fault::{
    doubled, fault_result, script_results, scripted_result, Fault, FaultStep, ScriptV,
};
use crate::eval::fingerprint::{
    canonical, canonical_block, canonical_message, fingerprint_text, masked,
};
use crate::eval::judge::{first_of, judge_question, last_of, unfenced, verdict_part, VerdictV};
use crate::eval::report::{
    all_rows, find_report, name_lines, new_loops_of, passed_count, table_row, task_rows, token_sum,
    turned, TaskReportV,
};
use crate::eval::suite::{first_repeated, suite_fault, Assertion};
use crate::eval::trajectory::{count_of, goes_round, metered, repeats_at, Meter, MetricsV};
use crate::json::{json_compact, JsonV};
use crate::pattern::regex_escaped;
use crate::providers::CallV;
use crate::select::{
    holds, lemma_holds_each, lemma_holds_itself, lemma_holds_joined, lemma_holds_next,
    lemma_holds_nothing, lemma_holds_three, lemma_holds_two, lemma_holds_within,
    lemma_selects_nothing, lemma_selects_push, picked, selects,
};
use crate::text::{blank, contains, decimal, occurs_at, texts, trim};

verus! {

broadcast use vstd::string::group_string_axioms;

// ---- fingerprints ----

/// Two blocks say the same, but for identifiers and what the masks cover.
pub open spec fn alike(a: BlockV, b: BlockV, rules: Seq<(Seq<char>, Seq<char>)>) -> bool {
    match (a, b) {
        (BlockV::Text { text: s }, BlockV::Text { text: t }) => masked(rules, s) == masked(rules, t),
        (
            BlockV::ToolCall { id: _, name: m, input: i },
            BlockV::ToolCall { id: _, name: n, input: j },
        ) => m == n && masked(rules, json_compact(i)) == masked(rules, json_compact(j)),
        (
            BlockV::ToolOutput { call_id: _, content: s },
            BlockV::ToolOutput { call_id: _, content: t },
        ) => masked(rules, s) == masked(rules, t),
        _ => false,
    }
}

proof fn lemma_blocks_alike(a: BlockV, b: BlockV, rules: Seq<(Seq<char>, Seq<char>)>)
    ensures
        canonical_block(a, rules) == canonical_block(b, rules) <==> alike(a, b, rules),
{
    reveal_strlit("text");
    reveal_strlit("tool_call");
    reveal_strlit("tool_output");
    assert("text"@.len() == 4 && "tool_call"@.len() == 9 && "tool_output"@.len() == 11);
    let x = canonical_block(a, rules)->Object_0;
    let y = canonical_block(b, rules)->Object_0;
    if canonical_block(a, rules) == canonical_block(b, rules) {
        assert(x[0] == y[0]);
        assert(x[1] == y[1]);
        assert(x.len() == y.len());
        if x.len() > 2 {
            assert(x[2] == y[2]);
        }
        if x.len() > 3 {
            assert(x[3] == y[3]);
        }
    }
    if alike(a, b, rules) {
        assert(x =~= y);
    }
}

/// What goes into a fingerprint tells conversations apart: it is the same for two of them only where
/// they have the same roles in the same order and say the same block by block, but for identifiers and
/// what the masks cover, and then it is.
pub proof fn lemma_canonical_tells(
    a: Seq<MessageV>,
    b: Seq<MessageV>,
    rules: Seq<(Seq<char>, Seq<char>)>,
)
    ensures
        canonical(a, rules) == canonical(b, rules) <==> a.len() == b.len() && (forall|i: int|
            0 <= i < a.len() ==> (#[trigger] a[i]).role == b[i].role && a[i].content.len()
                == b[i].content.len()) && (forall|i: int, k: int|
            0 <= i < a.len() && 0 <= k < a[i].content.len() ==> alike(
                #[trigger] a[i].content[k],
                b[i].content[k],
                rules,
            )),
{
    let x = canonical(a, rules)->Array_0;
    let y = canonical(b, rules)->Array_0;
    if canonical(a, rules) == canonical(b, rules) {
        assert(x.len() == a.len() && y.len() == b.len());
        assert forall|i: int| 0 <= i < a.len() implies (#[trigger] a[i]).role == b[i].role
            && a[i].content.len() == b[i].content.len() by {
            lemma_message_alike(a[i], b[i], rules, x[i], y[i]);
        }
        assert forall|i: int, k: int| 0 <= i < a.len() && 0 <= k < a[i].content.len() implies alike(
            #[trigger] a[i].content[k],
            b[i].content[k],
            rules,
        ) by {
            lemma_message_alike(a[i], b[i], rules, x[i], y[i]);
        }
    } else if a.len() == b.len() && (forall|i: int|
        0 <= i < a.len() ==> (#[trigger] a[i]).role == b[i].role && a[i].content.len()
            == b[i].content.len()) && (forall|i: int, k: int|
        0 <= i < a.len() && 0 <= k < a[i].content.len() ==> alike(
            #[trigger] a[i].content[k],
            b[i].content[k],
            rules,
        )) {
        assert forall|i: int| 0 <= i < a.len() implies #[trigger] x[i] == y[i] by {
            let p = a[i].content.map_values(|b: BlockV| canonical_block(b, rules));
            let q = b[i].content.map_values(|b: BlockV| canonical_block(b, rules));
            assert forall|k: int| 0 <= k < p.len() implies #[trigger] p[k] == q[k] by {
                assert(alike(a[i].content[k], b[i].content[k], rules));
                lemma_blocks_alike(a[i].content[k], b[i].content[k], rules);
            }
            assert(p =~= q);
            assert(canonical_message(a[i], rules)->Object_0 =~= canonical_message(
                b[i],
                rules,
            )->Object_0);
        }
        assert(x =~= y);
    }
}

proof fn lemma_message_alike(
    a: MessageV,
    b: MessageV,
    rules: Seq<(Seq<char>, Seq<char>)>,
    x: JsonV,
    y: JsonV,
)
    requires
        x == canonical_message(a, rules),
        y == canonical_message(b, rules),
        x == y,
    ensures
        a.role == b.role,
        a.content.len() == b.content.len(),
        forall|k: int|
            0 <= k < a.content.len() ==> alike(#[trigger] a.content[k], b.content[k], rules),
{
    let f = x->Object_0;
    let g = y->Object_0;
    assert(f[0] == g[0]);
    assert(f[1] == g[1]);
    lemma_roles_differ(a.role, b.role);
    let p = f[1].1->Array_0;
    let q = g[1].1->Array_0;
    assert(p == q);
    assert(p.len() == a.content.len() && q.len() == b.content.len());
    assert forall|k: int| 0 <= k < a.content.len() implies alike(
        #[trigger] a.content[k],
        b.content[k],
        rules,
    ) by {
        assert(p[k] == canonical_block(a.content[k], rules));
        assert(q[k] == canonical_block(b.content[k], rules));
        lemma_blocks_alike(a.content[k], b.content[k], rules);
    }
}

/// The masks are applied one after the other, each to what the one before left.
pub proof fn lemma_masks_in_order(
    first: Seq<(Seq<char>, Seq<char>)>,
    second: Seq<(Seq<char>, Seq<char>)>,
    text: Seq<char>,
)
    ensures
        masked(first + second, text) == masked(second, masked(first, text)),
        masked(Seq::empty(), text) == text,
    decreases second.len(),
{
    if second.len() == 0 {
        assert(first + second =~= first);
    } else {
        let front = second.drop_last();
        lemma_masks_in_order(first, front, text);
        assert((first + second).drop_last() =~= first + front);
        assert((first + second).last() == second.last());
    }
}

// ---- cassettes ----

/// A cassette answers each call with what was recorded for the call of that number, and only where the
/// conversation has the recorded fingerprint; it answers no call beyond its last.
pub proof fn lemma_cassette_plays_in_order(c: CassetteV, messages: Seq<MessageV>)
    ensures
        cassette_result(c, messages) is None <==> c.tape is None,
        c.tape matches Some((entries, path)) ==> {
            let r = cassette_result(c, messages)->Some_0;
            &&& r is Success <==> c.calls < entries.len() && fingerprint_text(messages, c.masks)
                == entries[c.calls as int].fingerprint
            &&& r matches CallV::Success(m) ==> m == entries[c.calls as int].response
            &&& r !is Success ==> r is Failure
        },
{
}

/// The lines with their numbers.
pub open spec fn numbered(ls: Seq<Seq<char>>) -> Seq<(nat, Seq<char>)> {
    Seq::new(ls.len(), |i: int| ((i + 1) as nat, ls[i]))
}

/// The line holds something.
pub open spec fn filled() -> spec_fn((nat, Seq<char>)) -> bool {
    |l: (nat, Seq<char>)| !blank(l.1)
}

/// The line without white space around it.
pub open spec fn tidied() -> spec_fn((nat, Seq<char>)) -> (nat, Seq<char>) {
    |l: (nat, Seq<char>)| (l.0, trim(l.1))
}

/// Every line of a cassette that is not blank is an entry, under its own number and in order.
pub proof fn lemma_entry_lines(ls: Seq<Seq<char>>)
    ensures
        selects(numbered(ls), entry_lines(ls), filled(), tidied()),
    decreases ls.len(),
{
    if ls.len() == 0 {
        lemma_selects_nothing::<(nat, Seq<char>), (nat, Seq<char>)>(filled(), tidied());
        assert(numbered(ls) =~= Seq::<(nat, Seq<char>)>::empty());
    } else {
        let front = ls.drop_last();
        lemma_entry_lines(front);
        let x = (ls.len(), ls.last());
        lemma_selects_push(numbered(front), entry_lines(front), filled(), tidied(), x);
        assert(numbered(front).push(x) =~= numbered(ls));
    }
}

// ---- judges ----

/// The judge reads the task, the rubric and the answer, in order, each whole.
pub proof fn lemma_judge_reads_all(task: Seq<char>, rubric: Seq<char>, answer: Seq<char>)
    ensures
        holds(judge_question(task, rubric, answer), seq![task, rubric, answer]),
{
    let a =
        "You are an impartial judge evaluating an AI agent's final answer.\n\nTask given to the agent:\n"@;
    let z =
        "\n\nRespond with ONLY a JSON object, no other text:\n{\"pass\": <true|false>, \"score\": <0.0-1.0>, \"rationale\": \"<one sentence>\"}"@;
    lemma_holds_three(
        a,
        task,
        "\n\nGrading rubric:\n"@,
        rubric,
        "\n\nAgent's final answer:\n"@,
        answer,
        z,
    );
}

proof fn lemma_first_of(s: Seq<char>, c: char)
    ensures
        first_of(s, c) is Some <==> s.contains(c),
        first_of(s, c) matches Some(k) ==> 0 <= k < s.len() && s[k] == c && forall|i: int|
            0 <= i < k ==> s[i] != c,
    decreases s.len(),
{
    if s.len() > 0 {
        let rest = s.skip(1);
        lemma_first_of(rest, c);
        assert forall|i: int| 0 <= i < rest.len() implies #[trigger] rest[i] == s[i + 1] by {}
        if s[0] == c {
            assert(s.contains(s[0]));
        } else {
            if s.contains(c) {
                let i = choose|i: int| 0 <= i < s.len() && s[i] == c;
                assert(rest[i - 1] == c);
            }
            if rest.contains(c) {
                let i = choose|i: int| 0 <= i < rest.len() && rest[i] == c;
                assert(s[i + 1] == c);
            }
            if let Some(k) = first_of(rest, c) {
                assert forall|i: int| 0 <= i < k + 1 implies s[i] != c by {
                    if i > 0 {
                        assert(rest[i - 1] == s[i]);
                    }
                }
            }
        }
    }
}

proof fn lemma_last_of(s: Seq<char>, c: char)
    ensures
        last_of(s, c) is Some <==> s.contains(c),
        last_of(s, c) matches Some(k) ==> 0 <= k < s.len() && s[k] == c && forall|i: int|
            k < i < s.len() ==> s[i] != c,
    decreases s.len(),
{
    if s.len() > 0 {
        let front = s.drop_last();
        lemma_last_of(front, c);
        if s.last() == c {
            assert(s[s.len() - 1] == c);
        } else {
            if s.contains(c) {
                let i = choose|i: int| 0 <= i < s.len() && s[i] == c;
                assert(front[i] == c);
            }
            if front.contains(c) {
                let i = choose|i: int| 0 <= i < front.len() && front[i] == c;
                assert(s[i] == c);
            }
            if let Some(k) = last_of(front, c) {
                assert forall|i: int| k < i < s.len() implies s[i] != c by {
                    if i < front.len() {
                        assert(front[i] == s[i]);
                    }
                }
            }
        }
    }
}

/// The verdict is read from the first opening brace of the answer to its last closing one.
pub proof fn lemma_verdict_part(raw: Seq<char>)
    ensures
        verdict_part(raw) matches Some(p) ==> {
            &&& contains(unfenced(raw), p)
            &&& p.len() >= 2 && p[0] == '{' && p.last() == '}'
            &&& forall|i: int|
                0 <= i < unfenced(raw).len() && unfenced(raw)[i] == '{' ==> i >= first_of(
                    unfenced(raw),
                    '{',
                )->Some_0
        },
        verdict_part(raw) is None ==> !exists|a: int, b: int|
            0 <= a < b < unfenced(raw).len() && #[trigger] unfenced(raw)[a] == '{'
                && #[trigger] unfenced(raw)[b] == '}',
{
    let s = unfenced(raw);
    lemma_first_of(s, '{');
    lemma_last_of(s, '}');
    if let Some(p) = verdict_part(raw) {
        let a = first_of(s, '{')->Some_0;
        assert(occurs_at(s, p, a));
    } else if exists|a: int, b: int|
        0 <= a < b < s.len() && #[trigger] s[a] == '{' && #[trigger] s[b] == '}' {
        let (a, b) = choose|a: int, b: int|
            0 <= a < b < s.len() && #[trigger] s[a] == '{' && #[trigger] s[b] == '}';
        assert(s.contains('{')) by {
            assert(s[a] == '{');
        }
        assert(s.contains('}')) by {
            assert(s[b] == '}');
        }
        assert(first_of(s, '{')->Some_0 <= a);
        assert(last_of(s, '}')->Some_0 >= b);
    }
}

// ---- assertions ----

/// The run used the tool.
pub open spec fn was_used(m: MetricsV) -> spec_fn(Seq<char>) -> bool {
    |t: Seq<char>| count_of(m.tool_calls, t) is Some
}

/// What is said of a forbidden tool.
pub open spec fn told_of() -> spec_fn(Seq<char>) -> Seq<char> {
    |t: Seq<char>| "forbidden tool used: "@ + t
}

/// Every forbidden tool that the run used is a failure, in order, and no other is.
pub proof fn lemma_forbidden_tools(tools: Seq<Seq<char>>, m: MetricsV)
    ensures
        selects(tools, forbidden_used(tools, m), was_used(m), told_of()),
    decreases tools.len(),
{
    if tools.len() == 0 {
        lemma_selects_nothing::<Seq<char>, Seq<char>>(was_used(m), told_of());
        assert(tools =~= Seq::<Seq<char>>::empty());
    } else {
        let front = tools.drop_last();
        lemma_forbidden_tools(front, m);
        lemma_selects_push(front, forbidden_used(front, m), was_used(m), told_of(), tools.last());
        assert(front.push(tools.last()) =~= tools);
    }
}

/// A run keeps to its limits where and only where it took no more steps and no more tokens than it
/// may, used no forbidden tool and did not go round in a loop.
pub proof fn lemma_limits_kept(
    max_steps: Option<u32>,
    max_tokens: Option<u64>,
    forbidden: Seq<Seq<char>>,
    m: MetricsV,
)
    ensures
        trajectory_failures(max_steps, max_tokens, forbidden, m).len() == 0 <==> (max_steps matches Some(
            n,
        ) ==> m.steps <= n) && (max_tokens matches Some(n) ==> m.prompt_tokens
            + m.completion_tokens <= n) && !m.loop_detected && (forall|i: int|
            0 <= i < forbidden.len() ==> count_of(m.tool_calls, #[trigger] forbidden[i]) is None),
{
    lemma_forbidden_tools(forbidden, m);
    crate::select::lemma_selects_some(
        forbidden,
        forbidden_used(forbidden, m),
        was_used(m),
        told_of(),
    );
    if exists|k: int| 0 <= k < forbidden.len() && was_used(m)(#[trigger] forbidden[k]) {
        let k = choose|k: int| 0 <= k < forbidden.len() && was_used(m)(#[trigger] forbidden[k]);
        assert(count_of(m.tool_calls, forbidden[k]) is Some);
    } else {
        assert forall|i: int| 0 <= i < forbidden.len() implies count_of(
            m.tool_calls,
            #[trigger] forbidden[i],
        ) is None by {
            assert(!was_used(m)(forbidden[i]));
        }
    }
}

/// The assertion asks a judge.
pub open spec fn asks_judge() -> spec_fn(Assertion) -> bool {
    |a: Assertion| a is Judge
}

/// The rubric that the judge is given.
pub open spec fn its_rubric() -> spec_fn(Assertion) -> Seq<char> {
    |a: Assertion| a->rubric@
}

/// A judge is asked for every rubric, in order, and for nothing else.
pub proof fn lemma_every_rubric(assertions: Seq<Assertion>)
    ensures
        selects(assertions, rubrics(assertions), asks_judge(), its_rubric()),
        judge_count(assertions) == rubrics(assertions).len(),
    decreases assertions.len(),
{
    if assertions.len() == 0 {
        lemma_selects_nothing::<Assertion, Seq<char>>(asks_judge(), its_rubric());
        assert(assertions =~= Seq::<Assertion>::empty());
    } else {
        let front = assertions.drop_last();
        lemma_every_rubric(front);
        lemma_selects_push(front, rubrics(front), asks_judge(), its_rubric(), assertions.last());
        assert(front.push(assertions.last()) =~= assertions);
    }
}

/// The assertion at `i` holds of the run.
pub open spec fn holds_of(
    assertions: Seq<Assertion>,
    m: MetricsV,
    verdicts: Seq<VerdictV>,
    i: int,
) -> bool {
    match assertions[i] {
        Assertion::Trajectory { max_steps, max_tokens, forbidden_tools } => trajectory_failures(
            max_steps,
            max_tokens,
            texts(forbidden_tools@),
            m,
        ).len() == 0,
        Assertion::Judge { rubric: _ } => verdicts[judge_count(assertions.take(i)) as int].pass,
    }
}

/// No failure is passed over and none is made up: there is none where and only where every assertion
/// holds, each judge's verdict taken for its own rubric.
pub proof fn lemma_every_assertion_counts(
    assertions: Seq<Assertion>,
    m: MetricsV,
    verdicts: Seq<VerdictV>,
)
    ensures
        assertion_failures(assertions, m, verdicts).len() == 0 <==> forall|i: int|
            0 <= i < assertions.len() ==> #[trigger] holds_of(assertions, m, verdicts, i),
    decreases assertions.len(),
{
    if assertions.len() > 0 {
        let front = assertions.drop_last();
        let n = front.len() as int;
        lemma_every_assertion_counts(front, m, verdicts);
        assert forall|i: int| 0 <= i < n implies holds_of(assertions, m, verdicts, i) == holds_of(
            front,
            m,
            verdicts,
            i,
        ) by {
            assert(assertions.take(i) =~= front.take(i));
        }
        assert(assertions.take(n) =~= front);
        assert(assertions[n] == assertions.last());
        if assertion_failures(assertions, m, verdicts).len() == 0 {
            assert forall|i: int| 0 <= i < assertions.len() implies #[trigger] holds_of(
                assertions,
                m,
                verdicts,
                i,
            ) by {
                if i < n {
                    assert(holds_of(front, m, verdicts, i));
                }
            }
        } else if forall|i: int|
            0 <= i < assertions.len() ==> #[trigger] holds_of(assertions, m, verdicts, i) {
            assert forall|i: int| 0 <= i < n implies #[trigger] holds_of(
                front,
                m,
                verdicts,
                i,
            ) by {
                assert(holds_of(assertions, m, verdicts, i));
            }
            assert(holds_of(assertions, m, verdicts, n));
        }
    }
}

/// A report fails where there is a failure, and then tells every one of them, whole and in order.
pub proof fn lemma_report_tells(
    name: Seq<char>,
    judge: Option<VerdictV>,
    metrics: MetricsV,
    failures: Seq<Seq<char>>,
)
    ensures
        ({
            let r = report_of(name, judge, metrics, failures);
            &&& r.name == name && r.judge == judge && r.metrics == metrics
            &&& r.pass <==> failures.len() == 0
            &&& r.failure is None <==> r.pass
            &&& r.failure matches Some(t) ==> holds(t, failures)
        }),
{
    lemma_holds_joined(failures, "; "@);
}

// ---- reports ----

/// The task passed.
pub open spec fn has_passed() -> spec_fn(TaskReportV) -> bool {
    |t: TaskReportV| t.pass
}

/// The number of passed tasks is the number of tasks that passed.
pub proof fn lemma_passed_counted(tasks: Seq<TaskReportV>)
    ensures
        exists|at: Seq<int>| #[trigger]
            picked(at, tasks, has_passed()) && at.len() == passed_count(tasks),
    decreases tasks.len(),
{
    if tasks.len() == 0 {
        assert(picked(Seq::empty(), tasks, has_passed()));
        assert(Seq::<int>::empty().len() == passed_count(tasks));
    } else {
        let front = tasks.drop_last();
        lemma_passed_counted(front);
        let at = choose|at: Seq<int>| #[trigger]
            picked(at, front, has_passed()) && at.len() == passed_count(front);
        let made = |t: TaskReportV| 0int;
        let zeros = Seq::new(at.len(), |j: int| 0int);
        assert(selects(front, zeros, has_passed(), made));
        lemma_selects_push(front, zeros, has_passed(), made, tasks.last());
        assert(front.push(tasks.last()) =~= tasks);
        let n = if tasks.last().pass {
            zeros.push(0int)
        } else {
            zeros
        };
        let to = choose|to: Seq<int>| #[trigger]
            picked(to, tasks, has_passed()) && to.len() == n.len();
        assert(picked(to, tasks, has_passed()) && to.len() == passed_count(tasks));
    }
}

/// The tokens of two lists of tasks add up, and those of one task are what it read and what it wrote.
pub proof fn lemma_tokens_add_up(a: Seq<TaskReportV>, b: Seq<TaskReportV>, t: TaskReportV)
    ensures
        token_sum(a + b) == token_sum(a) + token_sum(b),
        token_sum(seq![t]) == t.metrics.prompt_tokens + t.metrics.completion_tokens,
    decreases b.len(),
{
    reveal_with_fuel(token_sum, 2);
    assert(seq![t].drop_last() =~= Seq::<TaskReportV>::empty());
    if b.len() == 0 {
        assert(a + b =~= a);
    } else {
        lemma_tokens_add_up(a, b.drop_last(), t);
        assert((a + b).drop_last() =~= a + b.drop_last());
        assert((a + b).last() == b.last());
    }
}

/// The report of a task is one of its name; there is none only where no task has it.
pub proof fn lemma_report_found(tasks: Seq<TaskReportV>, name: Seq<char>)
    ensures
        find_report(tasks, name) matches Some(t) ==> tasks.contains(t) && t.name == name,
        find_report(tasks, name) is None <==> forall|i: int|
            0 <= i < tasks.len() ==> (#[trigger] tasks[i]).name != name,
    decreases tasks.len(),
{
    if tasks.len() > 0 {
        if tasks[0].name == name {
            assert(tasks.contains(tasks[0]));
        } else {
            let rest = tasks.skip(1);
            lemma_report_found(rest, name);
            if let Some(t) = find_report(rest, name) {
                let i = choose|i: int| 0 <= i < rest.len() && rest[i] == t;
                assert(tasks[i + 1] == t);
            } else {
                assert forall|i: int| 0 <= i < tasks.len() implies (#[trigger] tasks[i]).name
                    != name by {
                    if i > 0 {
                        assert(rest[i - 1] == tasks[i]);
                    }
                }
            }
        }
    }
}

/// The task failed here and passed there.
pub open spec fn fell(other: Seq<TaskReportV>) -> spec_fn(TaskReportV) -> bool {
    |t: TaskReportV|
        !t.pass && find_report(other, t.name) is Some && find_report(other, t.name)->Some_0.pass
}

/// The task looped here and not there.
pub open spec fn now_loops(other: Seq<TaskReportV>) -> spec_fn(TaskReportV) -> bool {
    |t: TaskReportV|
        t.metrics.loop_detected && !(find_report(other, t.name) is Some && find_report(
            other,
            t.name,
        )->Some_0.metrics.loop_detected)
}

/// The name of a task.
pub open spec fn its_name() -> spec_fn(TaskReportV) -> Seq<char> {
    |t: TaskReportV| t.name
}

/// A comparison names every task that failed here and passed there, and every one that loops here and
/// not there, in order, and no other.
pub proof fn lemma_changes_are_named(among: Seq<TaskReportV>, other: Seq<TaskReportV>)
    ensures
        selects(among, turned(among, other), fell(other), its_name()),
        selects(among, new_loops_of(among, other), now_loops(other), its_name()),
    decreases among.len(),
{
    if among.len() == 0 {
        lemma_selects_nothing::<TaskReportV, Seq<char>>(fell(other), its_name());
        lemma_selects_nothing::<TaskReportV, Seq<char>>(now_loops(other), its_name());
        assert(among =~= Seq::<TaskReportV>::empty());
    } else {
        let front = among.drop_last();
        lemma_changes_are_named(front, other);
        lemma_selects_push(front, turned(front, other), fell(other), its_name(), among.last());
        lemma_selects_push(
            front,
            new_loops_of(front, other),
            now_loops(other),
            its_name(),
            among.last(),
        );
        assert(front.push(among.last()) =~= among);
    }
}

/// The table has the rows of every task, whole and in order.
pub proof fn lemma_table_is_complete(tasks: Seq<TaskReportV>)
    ensures
        holds(all_rows(tasks), tasks.map_values(|t: TaskReportV| task_rows(t))),
    decreases tasks.len(),
{
    let rows = tasks.map_values(|t: TaskReportV| task_rows(t));
    if tasks.len() == 0 {
        lemma_holds_nothing(all_rows(tasks));
        assert(rows =~= Seq::<Seq<char>>::empty());
    } else {
        let front = tasks.drop_last();
        lemma_table_is_complete(front);
        let before = front.map_values(|t: TaskReportV| task_rows(t));
        lemma_holds_next(all_rows(front), before, Seq::empty(), task_rows(tasks.last()));
        assert(before.push(task_rows(tasks.last())) =~= rows);
        assert(all_rows(front) + Seq::<char>::empty() + task_rows(tasks.last()) =~= all_rows(
            tasks,
        ));
    }
}

proof fn lemma_row_begins(
    name: Seq<char>,
    result: Seq<char>,
    steps: Seq<char>,
    tok_in: Seq<char>,
    tok_out: Seq<char>,
    wall: Seq<char>,
)
    ensures
        name.is_prefix_of(table_row(name, result, steps, tok_in, tok_out, wall)),
{
    let row = table_row(name, result, steps, tok_in, tok_out, wall);
    let rest = " "@ + crate::eval::report::pad_right(result, 6) + " "@
        + crate::eval::report::pad_left(steps, 5) + " "@ + crate::eval::report::pad_left(tok_in, 8)
        + " "@ + crate::eval::report::pad_left(tok_out, 8) + " "@ + crate::eval::report::pad_left(
        wall,
        10,
    ) + "\n"@;
    let first = crate::eval::report::pad_right(name, 28);
    assert(row =~= first + rest);
    assert(first.take(name.len() as int) =~= name);
    assert((first + rest).subrange(0, name.len() as int) =~= first.take(name.len() as int));
}

proof fn lemma_rows_with(row: Seq<char>, judge: Option<VerdictV>, failure: Option<Seq<char>>)
    ensures
        ({
            let judged = match judge {
                Some(j) => "    -> judge("@ + j.score + "): "@ + j.rationale + "\n"@,
                None => Seq::empty(),
            };
            let why = match failure {
                Some(f) => "    -> "@ + f + "\n"@,
                None => Seq::empty(),
            };
            let out = row + judged + why;
            &&& row.is_prefix_of(out)
            &&& judge matches Some(j) ==> holds(out, seq![j.score, j.rationale])
            &&& failure matches Some(f) ==> contains(out, f)
        }),
{
    let judged = match judge {
        Some(j) => "    -> judge("@ + j.score + "): "@ + j.rationale + "\n"@,
        None => Seq::empty(),
    };
    let why = match failure {
        Some(f) => "    -> "@ + f + "\n"@,
        None => Seq::empty(),
    };
    let out = row + judged + why;
    assert(out.subrange(0, row.len() as int) =~= row);
    if let Some(j) = judge {
        lemma_holds_two(row + "    -> judge("@, j.score, "): "@, j.rationale, "\n"@ + why);
        assert(row + "    -> judge("@ + j.score + "): "@ + j.rationale + ("\n"@ + why) =~= out);
    }
    if let Some(f) = failure {
        lemma_holds_itself(f);
        lemma_holds_within(row + judged + "    -> "@, f, "\n"@, seq![f]);
        assert(row + judged + "    -> "@ + f + "\n"@ =~= out);
        lemma_holds_each(out, seq![f], 0);
    }
}

/// The rows of a task begin with its name and tell its judge's score and reason and its failure, whole
/// and in order, where it has them.
pub proof fn lemma_rows_tell(t: TaskReportV)
    ensures
        t.name.is_prefix_of(task_rows(t)),
        t.judge matches Some(j) ==> holds(task_rows(t), seq![j.score, j.rationale]),
        t.failure matches Some(f) ==> contains(task_rows(t), f),
{
    let result = if t.pass {
        "PASS"@
    } else {
        "FAIL"@
    };
    let steps = decimal(t.metrics.steps as nat);
    let tok_in = decimal(t.metrics.prompt_tokens as nat);
    let tok_out = decimal(t.metrics.completion_tokens as nat);
    let wall = decimal(t.metrics.wall_ms as nat);
    let row = table_row(t.name, result, steps, tok_in, tok_out, wall);
    lemma_row_begins(t.name, result, steps, tok_in, tok_out, wall);
    lemma_rows_with(row, t.judge, t.failure);
    let out = task_rows(t);
    let n = t.name.len() as int;
    assert(out.subrange(0, row.len() as int).subrange(0, n) =~= out.subrange(0, n));
}

/// A list of names has every name, whole and in order, each on a line of its own.
pub proof fn lemma_name_lines_tell(lead: Seq<char>, names: Seq<Seq<char>>)
    ensures
        holds(name_lines(lead, names), names),
    decreases names.len(),
{
    if names.len() == 0 {
        lemma_holds_nothing(name_lines(lead, names));
        assert(names =~= Seq::<Seq<char>>::empty());
    } else {
        let front = names.drop_last();
        lemma_name_lines_tell(lead, front);
        lemma_holds_next(name_lines(lead, front), front, lead, names.last());
        let t = name_lines(lead, front) + lead + names.last();
        lemma_holds_within(Seq::empty(), t, "\n"@, front.push(names.last()));
        assert(Seq::<char>::empty() + t + "\n"@ =~= name_lines(lead, names));
        assert(front.push(names.last()) =~= names);
    }
}

/// A run goes round in a loop where and only where it makes the same call three times in a row.
pub proof fn lemma_loop_is_three_alike(signatures: Seq<Seq<char>>)
    ensures
        goes_round(signatures) <==> exists|i: int|
            0 <= i && i + 2 < signatures.len() && #[trigger] signatures[i] == signatures[i + 1]
                && signatures[i + 1] == signatures[i + 2],
{
    if goes_round(signatures) {
        let i = choose|i: int|
            0 <= i <= signatures.len() - crate::eval::trajectory::LOOP_WINDOW && repeats_at(
                signatures,
                i,
            );
        assert(signatures[i] == signatures[i + 1]);
    }
    if exists|i: int|
        0 <= i && i + 2 < signatures.len() && #[trigger] signatures[i] == signatures[i + 1]
            && signatures[i + 1] == signatures[i + 2] {
        let i = choose|i: int|
            0 <= i && i + 2 < signatures.len() && #[trigger] signatures[i] == signatures[i + 1]
                && signatures[i + 1] == signatures[i + 2];
        assert(repeats_at(signatures, i));
    }
}

/// The meter counts every call that succeeds and adds up what each read and wrote; a call that fails
/// costs nothing.
pub proof fn lemma_meter_adds_up(m: Meter, r: CallV)
    ensures
        r matches CallV::Success(resp) ==> metered(m, r).0 == m.calls + 1,
        r matches CallV::Success(resp) ==> (resp.usage matches Some(u) ==> metered(m, r).1
            == m.prompt_tokens + u.input_tokens && metered(m, r).2 == m.completion_tokens
            + u.output_tokens),
        r matches CallV::Success(resp) ==> (resp.usage is None ==> metered(m, r).1
            == m.prompt_tokens && metered(m, r).2 == m.completion_tokens),
        r !is Success ==> metered(m, r) == (
            m.calls as int,
            m.prompt_tokens as int,
            m.completion_tokens as int,
        ),
{
}

/// Where a replay drifts, the error tells the number of the call, the cassette and both fingerprints,
/// in order.
pub proof fn lemma_drift_is_told(
    n: nat,
    path: Seq<char>,
    entry: EntryV,
    messages: Seq<MessageV>,
    rules: Seq<(Seq<char>, Seq<char>)>,
)
    ensures
        holds(
            drift_text(n, path, entry, messages, rules),
            seq![decimal(n), path, entry.fingerprint, fingerprint_text(messages, rules)],
        ),
{
    let rec = json_compact(canonical(entry.request, rules));
    let act = json_compact(canonical(messages, rules));
    let diff = if rec == act {
        Seq::empty()
    } else {
        diff_text(rec, act)
    };
    let e = Seq::<char>::empty();
    let f = fingerprint_text(messages, rules);
    let z = "\n"@ + diff + "\n→ prompt semantics changed; re-record with BYTEMAKER_CASSETTE="@ + path
        + "+record"@;
    let a = "cassette drift at call #"@;
    let b = "\n  expected fingerprint: "@;
    let c = "\n  actual   fingerprint: "@;
    lemma_holds_three(a, decimal(n), " of "@, path, b, entry.fingerprint, e);
    let t3 = a + decimal(n) + " of "@ + path + b + entry.fingerprint + e;
    let p3 = seq![decimal(n), path, entry.fingerprint];
    lemma_holds_next(t3, p3, c, f);
    let t4 = t3 + c + f;
    lemma_holds_within(e, t4, z, p3.push(f));
    assert(e + t4 + z =~= drift_text(n, path, entry, messages, rules));
    assert(p3.push(f) =~= seq![decimal(n), path, entry.fingerprint, f]);
}

/// A cassette is recorded where the request ends with the word for it, and replayed where it names a
/// file that is there; a file that is not there is an error that names it.
pub proof fn lemma_cassette_is_requested(value: Option<Seq<char>>, on_disk: bool)
    ensures
        value is None ==> env_request(value, on_disk) == Ok::<
            Option<(bool, Seq<char>)>,
            Seq<char>,
        >(None),
        value matches Some(raw) ==> {
            let v = trim(raw);
            let r = env_request(value, on_disk);
            let records = "+record"@.is_suffix_of(v) && v.len() > 0;
            &&& v.len() == 0 ==> r == Ok::<Option<(bool, Seq<char>)>, Seq<char>>(None)
            &&& records ==> (r matches Ok(Some(x)) && x.0 && x.1 == trim(
                v.take(v.len() - "+record"@.len()),
            ))
            &&& v.len() > 0 && !records && on_disk ==> r == Ok::<
                Option<(bool, Seq<char>)>,
                Seq<char>,
            >(Some((false, v)))
            &&& v.len() > 0 && !records && !on_disk ==> (r matches Err(e) && contains(e, v))
        },
{
    if let Some(raw) = value {
        let v = trim(raw);
        let a = "BYTEMAKER_CASSETTE="@;
        let z = " does not exist; to record, set BYTEMAKER_CASSETTE="@ + v + "+record"@;
        lemma_holds_itself(v);
        lemma_holds_within(a, v, z, seq![v]);
        lemma_holds_each(a + v + z, seq![v], 0);
        assert(a + v + z =~= a + v + " does not exist; to record, set BYTEMAKER_CASSETTE="@ + v
            + "+record"@);
    }
}

// ---- suites and faults ----

proof fn lemma_first_repeated(names: Seq<Seq<char>>)
    ensures
        first_repeated(names) is None <==> names.no_duplicates(),
        first_repeated(names) matches Some(n) ==> exists|i: int, j: int|
            0 <= i < j < names.len() && #[trigger] names[i] == n && #[trigger] names[j] == n,
    decreases names.len(),
{
    if names.len() > 0 {
        let front = names.drop_last();
        let last = names.last();
        let n = front.len() as int;
        lemma_first_repeated(front);
        assert forall|i: int| 0 <= i < n implies #[trigger] front[i] == names[i] by {}
        if let Some(x) = first_repeated(front) {
            let (i, j) = choose|i: int, j: int|
                0 <= i < j < front.len() && #[trigger] front[i] == x && #[trigger] front[j] == x;
            assert(names[i] == x && names[j] == x);
        } else if front.contains(last) {
            let i = choose|i: int| 0 <= i < front.len() && front[i] == last;
            assert(names[i] == last && names[n] == last);
        } else {
            assert forall|i: int, j: int| 0 <= i < names.len() && 0 <= j < names.len() && i
                != j implies names[i] != names[j] by {
                if i < n && j < n {
                    assert(front[i] != front[j]);
                } else if i < n {
                    assert(front.contains(front[i]));
                } else {
                    assert(front.contains(front[j]));
                }
            }
        }
    }
}

/// A suite is accepted where and only where it has a task and no two tasks have the same name; a name
/// that comes twice is told.
pub proof fn lemma_suite_is_judged(names: Seq<Seq<char>>)
    ensures
        suite_fault(names) is None <==> names.len() > 0 && names.no_duplicates(),
        names.len() > 0 ==> (suite_fault(names) matches Some(e) ==> exists|i: int, j: int|
            0 <= i < j < names.len() && names[i] == #[trigger] names[j] && (
            #[trigger] names[i]).is_suffix_of(e)),
{
    lemma_first_repeated(names);
    if names.len() > 0 {
        if let Some(n) = first_repeated(names) {
            let e = "duplicate task name: "@ + n;
            assert(e.subrange(e.len() - n.len(), e.len() as int) =~= n);
            let (i, j) = choose|i: int, j: int|
                0 <= i < j < names.len() && #[trigger] names[i] == n && #[trigger] names[j] == n;
            assert(names[i] == names[j] && names[i].is_suffix_of(e));
        }
    }
}

/// A script answers each call with the response of that number, and fails every call beyond its last.
pub proof fn lemma_script_plays_in_order(s: ScriptV)
    ensures
        s.calls < s.responses.len() ==> scripted_result(s) == CallV::Success(
            s.responses[s.calls as int],
        ),
        s.calls >= s.responses.len() ==> scripted_result(s) is Failure,
{
}

/// Every fault of a script fails its call with its own error, and every other step succeeds with its own
/// response.
pub proof fn lemma_faults_are_played(script: Seq<FaultStep>, n: nat)
    ensures
        n >= script.len() ==> fault_result(script_results(script), n) is Failure,
        n < script.len() ==> (script[n as int] matches FaultStep::Succeed(m) ==> fault_result(
            script_results(script),
            n,
        ) == CallV::Success(m@)),
        n < script.len() ==> (script[n as int] matches FaultStep::Fail(f) ==> (fault_result(
            script_results(script),
            n,
        ) matches CallV::Failure(e) && (f == Fault::RateLimit ==> e is RateLimit) && (f
            == Fault::Timeout ==> e is Timeout) && (f == Fault::MalformedJson
            ==> e is InvalidResponse) && (f == Fault::AuthError ==> e is AuthError))),
{
}

/// The waiting time doubles with every attempt.
pub proof fn lemma_waits_double(a: nat, b: nat)
    ensures
        doubled(a + b) == doubled(a) * doubled(b),
        doubled(0) == 1,
        doubled(a + 1) == 2 * doubled(a),
    decreases b,
{
    if b == 0 {
        assert(doubled(a) * 1 == doubled(a)) by (nonlinear_arith);
    } else {
        let c = (b - 1) as nat;
        lemma_waits_double(a, c);
        let x = doubled(a) as int;
        let y = doubled(c) as int;
        assert(2 * (x * y) == x * (2 * y)) by (nonlinear_arith);
        assert((a + b - 1) as nat == a + c);
    }
}

/// The usage that a cassette keeps is the usage that it plays.
pub proof fn lemma_usage_is_kept(u: Option<Usage>)
    ensures
        played_usage(recorded_usage(u)) == u,
{
}

/// The workspace of a task is masked behind every other rule, by its own path taken letter for letter;
/// without a path the rules stay.
pub proof fn lemma_workspace_is_masked(rules: Seq<(Seq<char>, Seq<char>)>, path: Seq<char>)
    ensures
        path.len() == 0 ==> with_workspace(rules, path) == rules,
        path.len() > 0 ==> {
            let out = with_workspace(rules, path);
            &&& out.len() == rules.len() + 1
            &&& out.drop_last() == rules
            &&& out.last().0 == regex_escaped(path)
            &&& out.last().1.len() > 0
        },
{
    reveal_strlit("<WORKSPACE>");
    if path.len() > 0 {
        assert(with_workspace(rules, path).drop_last() =~= rules);
    }
}

} // verus!

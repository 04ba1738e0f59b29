//! What an agent did in a task: how often which tool ran, whether it went round in circles, and how
//! many model calls and tokens it took.

use vstd::prelude::*;

use crate::json::{json_compact, json_text, Json, JsonV};
use crate::providers::{CallResult, CallV};
use crate::text::{concat3, lemma_text_lt_total, lemma_text_lt_transitive, owned, str_eq, str_lt,
    text_lt, texts};

verus! {

broadcast use vstd::string::group_string_axioms;

/// So many equal tool calls in a row are a loop.
pub const LOOP_WINDOW: usize = 3;

// ---- counts by name ----

/// The counts, by name.
pub open spec fn counts_view(s: Seq<(String, u32)>) -> Seq<(Seq<char>, u32)> {
    s.map_values(|e: (String, u32)| (e.0@, e.1))
}

/// The count of the name.
pub open spec fn count_of(counts: Seq<(Seq<char>, u32)>, name: Seq<char>) -> Option<u32>
    decreases counts.len(),
{
    if counts.len() == 0 {
        None
    } else if counts[0].0 == name {
        Some(counts[0].1)
    } else {
        count_of(counts.skip(1), name)
    }
}

/// The counts with one more for the name, which stands in its place by name.
pub open spec fn counted(counts: Seq<(Seq<char>, u32)>, name: Seq<char>) -> Seq<(Seq<char>, u32)>
    decreases counts.len(),
{
    if counts.len() == 0 {
        seq![(name, 1u32)]
    } else if counts[0].0 == name {
        seq![(name, (counts[0].1 + 1) as u32)] + counts.skip(1)
    } else if text_lt(name, counts[0].0) {
        seq![(name, 1u32)] + counts
    } else {
        seq![counts[0]] + counted(counts.skip(1), name)
    }
}

/// How often each tool ran, by name.
#[derive(Debug)]
pub struct ToolCounts {
    entries: Vec<(String, u32)>,
}

impl View for ToolCounts {
    type V = Seq<(Seq<char>, u32)>;

    closed spec fn view(&self) -> Seq<(Seq<char>, u32)> {
        counts_view(self.entries@)
    }
}

impl ToolCounts {
    pub fn new() -> (r: Self)
        ensures
            r@ == Seq::<(Seq<char>, u32)>::empty(),
    {
        let r = ToolCounts { entries: Vec::new() };
        assert(r@ =~= Seq::<(Seq<char>, u32)>::empty());
        r
    }

    /// How often the tool ran.
    pub fn get(&self, name: &str) -> (r: Option<u32>)
        ensures
            r == count_of(self@, name@),
    {
        let ghost all = self@;
        assert(all.skip(0) =~= all);
        let mut i: usize = 0;
        while i < self.entries.len()
            invariant
                i <= self.entries@.len(),
                all == self@,
                count_of(all, name@) == count_of(all.skip(i as int), name@),
            decreases self.entries@.len() - i,
        {
            assert(all.skip(i as int)[0] == (self.entries@[i as int].0@, self.entries@[i as int].1));
            if str_eq(self.entries[i].0.as_str(), name) {
                return Some(self.entries[i].1);
            }
            assert(all.skip(i as int).skip(1) =~= all.skip(i + 1));
            i += 1;
        }
        None
    }

    /// Counts a run of the tool.
    pub fn count(&mut self, name: &str)
        requires
            count_of(old(self)@, name@) != Some(u32::MAX),
        ensures
            final(self)@ == counted(old(self)@, name@),
    {
        let ghost all = self@;
        assert(all.skip(0) =~= all);
        assert(all.take(0) + counted(all.skip(0), name@) =~= counted(all, name@));
        let mut i: usize = 0;
        while i < self.entries.len()
            invariant
                i <= self.entries@.len(),
                *self == *old(self),
                all == self@,
                count_of(all, name@) != Some(u32::MAX),
                count_of(all, name@) == count_of(all.skip(i as int), name@),
                counted(all, name@) == all.take(i as int) + counted(all.skip(i as int), name@),
            decreases self.entries@.len() - i,
        {
            let ghost here = all[i as int];
            assert(all.skip(i as int)[0] == here);
            assert(all.skip(i as int).skip(1) =~= all.skip(i + 1));
            if str_eq(self.entries[i].0.as_str(), name) {
                let n: u32 = self.entries[i].1 + 1;
                self.entries.set(i, (owned(name), n));
                assert(self@ =~= all.take(i as int) + (seq![(name@, n)] + all.skip(i + 1)));
                return;
            }
            if str_lt(name, self.entries[i].0.as_str()) {
                self.entries.insert(i, (owned(name), 1));
                assert(self@ =~= all.take(i as int) + (seq![(name@, 1u32)] + all.skip(i as int)));
                return;
            }
            assert(all.take(i as int) + (seq![here] + counted(all.skip(i + 1), name@))
                =~= all.take(i + 1) + counted(all.skip(i + 1), name@));
            i += 1;
        }
        self.entries.push((owned(name), 1));
        assert(self@ =~= all.take(i as int) + seq![(name@, 1u32)]);
    }

    /// A copy of the counts.
    pub fn dup(&self) -> (r: Self)
        ensures
            r@ == self@,
    {
        let ghost all = self@;
        let mut entries: Vec<(String, u32)> = Vec::new();
        let mut i: usize = 0;
        while i < self.entries.len()
            invariant
                i <= self.entries@.len(),
                all == self@,
                counts_view(entries@) == all.take(i as int),
            decreases self.entries@.len() - i,
        {
            let ghost before = counts_view(entries@);
            entries.push((self.entries[i].0.clone(), self.entries[i].1));
            assert(counts_view(entries@) =~= before.push(all[i as int]));
            assert(all.take(i + 1) =~= before.push(all[i as int]));
            i += 1;
        }
        assert(all.take(self.entries@.len() as int) =~= all);
        ToolCounts { entries }
    }

    /// How many tools ran.
    pub fn len(&self) -> (r: usize)
        ensures
            r == self@.len(),
    {
        self.entries.len()
    }

    /// The name and the count at the place.
    pub fn at(&self, i: usize) -> (r: (&str, u32))
        requires
            i < self@.len(),
        ensures
            (r.0@, r.1) == self@[i as int],
    {
        (self.entries[i].0.as_str(), self.entries[i].1)
    }
}

// ---- loops ----

/// The same call stands three times in a row somewhere.
pub open spec fn goes_round(signatures: Seq<Seq<char>>) -> bool {
    exists|i: int|
        0 <= i <= signatures.len() - LOOP_WINDOW && repeats_at(signatures, i)
}

/// The same call stands three times in a row at the place.
pub open spec fn repeats_at(signatures: Seq<Seq<char>>, i: int) -> bool {
    signatures[i] == signatures[i + 1] && signatures[i] == signatures[i + 2]
}

/// Whether the same call stands three times in a row somewhere.
pub fn detect_loop(signatures: &[String]) -> (r: bool)
    ensures
        r == goes_round(texts(signatures@)),
{
    let ghost all = texts(signatures@);
    let n: usize = signatures.len();
    if n < LOOP_WINDOW {
        return false;
    }
    let mut i: usize = 0;
    while i <= n - LOOP_WINDOW
        invariant
            n == signatures@.len(),
            n >= LOOP_WINDOW,
            i <= n - LOOP_WINDOW + 1,
            all == texts(signatures@),
            forall|k: int| 0 <= k < i ==> !repeats_at(all, k),
        decreases n - i,
    {
        if str_eq(signatures[i].as_str(), signatures[i + 1].as_str()) && str_eq(
            signatures[i].as_str(),
            signatures[i + 2].as_str(),
        ) {
            assert(repeats_at(all, i as int));
            return true;
        }
        assert(!repeats_at(all, i as int));
        i += 1;
    }
    false
}

// ---- collector ----

/// The tool call as it is told from others.
pub open spec fn signature(name: Seq<char>, input: JsonV) -> Seq<char> {
    name + ":"@ + json_compact(input)
}

/// What a collector has seen.
#[verifier::ext_equal]
pub struct CollectorV {
    pub tool_calls: Seq<(Seq<char>, u32)>,
    pub signatures: Seq<Seq<char>>,
    pub started: u64,
}

/// Watches the tool calls of a task.
#[derive(Debug)]
pub struct TrajectoryCollector {
    tool_calls: ToolCounts,
    signatures: Vec<String>,
    started: u64,
}

impl View for TrajectoryCollector {
    type V = CollectorV;

    closed spec fn view(&self) -> CollectorV {
        CollectorV {
            tool_calls: self.tool_calls@,
            signatures: texts(self.signatures@),
            started: self.started,
        }
    }
}

/// What a collector has seen up to some time.
#[derive(Debug)]
pub struct CollectorSnapshot {
    pub tool_calls: ToolCounts,
    pub loop_detected: bool,
    pub wall_ms: u64,
}

impl TrajectoryCollector {
    /// A collector that starts at the time, a reading in milliseconds.
    pub fn new(now: u64) -> (r: Self)
        ensures
            r@ == (CollectorV {
                tool_calls: Seq::empty(),
                signatures: Seq::empty(),
                started: now,
            }),
    {
        let r = TrajectoryCollector {
            tool_calls: ToolCounts::new(),
            signatures: Vec::new(),
            started: now,
        };
        assert(r@.signatures =~= Seq::empty());
        r
    }

    /// Takes note of a tool call; never a message for the model.
    pub fn on_post_tool(&mut self, name: &str, input: &Json) -> (r: Option<String>)
        requires
            count_of(old(self)@.tool_calls, name@) != Some(u32::MAX),
        ensures
            r is None,
            final(self)@ == (CollectorV {
                tool_calls: counted(old(self)@.tool_calls, name@),
                signatures: old(self)@.signatures.push(signature(name@, input@)),
                ..old(self)@
            }),
    {
        let ghost before = self@;
        self.tool_calls.count(name);
        let s = concat3(name, ":", json_text(input).as_str());
        self.signatures.push(s);
        assert(self@.signatures =~= before.signatures.push(s@));
        None
    }

    /// What was seen up to the time.
    pub fn snapshot(&self, now: u64) -> (r: CollectorSnapshot)
        ensures
            r.tool_calls@ == self@.tool_calls,
            r.loop_detected == goes_round(self@.signatures),
            r.wall_ms == if now >= self@.started {
                (now - self@.started) as u64
            } else {
                0
            },
    {
        CollectorSnapshot {
            tool_calls: self.tool_calls.dup(),
            loop_detected: detect_loop(self.signatures.as_slice()),
            wall_ms: if now >= self.started {
                now - self.started
            } else {
                0
            },
        }
    }
}

// ---- meter ----

/// Counts the model calls that succeeded, and their tokens.
#[derive(Clone, Copy, Debug, PartialEq, Eq, Structural)]
pub struct Meter {
    pub calls: u64,
    pub prompt_tokens: u64,
    pub completion_tokens: u64,
}

/// The meter after a call.
pub open spec fn metered(m: Meter, r: CallV) -> (int, int, int) {
    match r {
        CallV::Success(resp) => match resp.usage {
            Some(u) => (
                m.calls + 1,
                m.prompt_tokens + u.input_tokens,
                m.completion_tokens + u.output_tokens,
            ),
            None => (m.calls + 1, m.prompt_tokens as int, m.completion_tokens as int),
        },
        _ => (m.calls as int, m.prompt_tokens as int, m.completion_tokens as int),
    }
}

impl Meter {
    pub fn new() -> (r: Self)
        ensures
            r == (Meter { calls: 0, prompt_tokens: 0, completion_tokens: 0 }),
    {
        Meter { calls: 0, prompt_tokens: 0, completion_tokens: 0 }
    }

    /// Counts the result of a call.
    pub fn record(&mut self, result: &CallResult)
        requires
            metered(*old(self), result@).0 <= u64::MAX,
            metered(*old(self), result@).1 <= u64::MAX,
            metered(*old(self), result@).2 <= u64::MAX,
        ensures
            (
                final(self).calls as int,
                final(self).prompt_tokens as int,
                final(self).completion_tokens as int,
            ) == metered(*old(self), result@),
    {
        match result {
            CallResult::Success(m) => {
                self.calls = self.calls + 1;
                match m.usage {
                    Some(u) => {
                        self.prompt_tokens = self.prompt_tokens + u.input_tokens;
                        self.completion_tokens = self.completion_tokens + u.output_tokens;
                    },
                    None => {},
                }
            },
            _ => {},
        }
    }

    /// Calls, prompt tokens and completion tokens so far.
    pub fn totals(&self) -> (r: (u64, u64, u64))
        ensures
            r == (self.calls, self.prompt_tokens, self.completion_tokens),
    {
        (self.calls, self.prompt_tokens, self.completion_tokens)
    }
}

// ---- metrics ----

/// What an agent did in a task.
#[derive(Debug)]
pub struct TrajectoryMetrics {
    /// Model calls.
    pub steps: u32,
    /// How often each tool ran.
    pub tool_calls: ToolCounts,
    pub prompt_tokens: u64,
    pub completion_tokens: u64,
    pub wall_ms: u64,
    pub loop_detected: bool,
}

/// The metrics, with texts as sequences of characters.
#[verifier::ext_equal]
pub struct MetricsV {
    pub steps: u32,
    pub tool_calls: Seq<(Seq<char>, u32)>,
    pub prompt_tokens: u64,
    pub completion_tokens: u64,
    pub wall_ms: u64,
    pub loop_detected: bool,
}

impl View for TrajectoryMetrics {
    type V = MetricsV;

    open spec fn view(&self) -> MetricsV {
        MetricsV {
            steps: self.steps,
            tool_calls: self.tool_calls@,
            prompt_tokens: self.prompt_tokens,
            completion_tokens: self.completion_tokens,
            wall_ms: self.wall_ms,
            loop_detected: self.loop_detected,
        }
    }
}

/// Nothing was done.
pub open spec fn no_metrics() -> MetricsV {
    MetricsV {
        steps: 0,
        tool_calls: Seq::empty(),
        prompt_tokens: 0,
        completion_tokens: 0,
        wall_ms: 0,
        loop_detected: false,
    }
}

impl Default for TrajectoryMetrics {
    fn default() -> (r: Self)
        ensures
            r@ == no_metrics(),
    {
        TrajectoryMetrics {
            steps: 0,
            tool_calls: ToolCounts::new(),
            prompt_tokens: 0,
            completion_tokens: 0,
            wall_ms: 0,
            loop_detected: false,
        }
    }
}

/// What was seen and what was metered, together. The number of calls is cut to 32 bits.
pub fn compose(snapshot: CollectorSnapshot, meter: (u64, u64, u64)) -> (r: TrajectoryMetrics)
    ensures
        r@ == (MetricsV {
            steps: meter.0 as u32,
            tool_calls: snapshot.tool_calls@,
            prompt_tokens: meter.1,
            completion_tokens: meter.2,
            wall_ms: snapshot.wall_ms,
            loop_detected: snapshot.loop_detected,
        }),
{
    TrajectoryMetrics {
        steps: #[verifier::truncate]
        (meter.0 as u32),
        tool_calls: snapshot.tool_calls,
        prompt_tokens: meter.1,
        completion_tokens: meter.2,
        wall_ms: snapshot.wall_ms,
        loop_detected: snapshot.loop_detected,
    }
}

// ---- laws ----

/// The names ascend.
pub open spec fn names_ascend(counts: Seq<(Seq<char>, u32)>) -> bool {
    forall|i: int, j: int|
        0 <= i < j < counts.len() ==> text_lt((#[trigger] counts[i]).0, (#[trigger] counts[j]).0)
}

/// Counting a tool raises its own count by one and leaves every other count as it was.
pub proof fn lemma_counted(counts: Seq<(Seq<char>, u32)>, name: Seq<char>, other: Seq<char>)
    requires
        count_of(counts, name) != Some(u32::MAX),
        names_ascend(counts),
    ensures
        count_of(counted(counts, name), name) == match count_of(counts, name) {
            Some(n) => Some((n + 1) as u32),
            None => Some(1u32),
        },
        other != name ==> count_of(counted(counts, name), other) == count_of(counts, other),
    decreases counts.len(),
{
    let after = counted(counts, name);
    if counts.len() == 0 {
        assert(after.skip(1) =~= Seq::empty());
        reveal_with_fuel(count_of, 2);
    } else if counts[0].0 == name {
        assert(after.skip(1) =~= counts.skip(1));
    } else if text_lt(name, counts[0].0) {
        assert(after.skip(1) =~= counts);
        lemma_smaller_is_absent(counts, name);
    } else {
        let rest = counts.skip(1);
        assert(after.skip(1) =~= counted(rest, name));
        assert forall|i: int, j: int| 0 <= i < j < rest.len() implies text_lt(
            (#[trigger] rest[i]).0,
            (#[trigger] rest[j]).0,
        ) by {
            assert(text_lt(counts[i + 1].0, counts[j + 1].0));
        }
        lemma_counted(rest, name, other);
    }
}

proof fn lemma_smaller_is_absent(counts: Seq<(Seq<char>, u32)>, name: Seq<char>)
    requires
        names_ascend(counts),
        counts.len() > 0 ==> text_lt(name, counts[0].0),
    ensures
        count_of(counts, name) is None,
    decreases counts.len(),
{
    if counts.len() > 0 {
        let rest = counts.skip(1);
        crate::text::lemma_text_lt_irreflexive(name);
        if rest.len() > 0 {
            assert(text_lt(counts[0].0, counts[1].0));
            lemma_text_lt_transitive(name, counts[0].0, counts[1].0);
        }
        assert forall|i: int, j: int| 0 <= i < j < rest.len() implies text_lt(
            (#[trigger] rest[i]).0,
            (#[trigger] rest[j]).0,
        ) by {
            assert(text_lt(counts[i + 1].0, counts[j + 1].0));
        }
        lemma_smaller_is_absent(rest, name);
    }
}

/// The names stay in ascending order.
pub proof fn lemma_counted_ascend(counts: Seq<(Seq<char>, u32)>, name: Seq<char>)
    requires
        names_ascend(counts),
    ensures
        names_ascend(counted(counts, name)),
        forall|i: int|
            0 <= i < counted(counts, name).len() ==> (#[trigger] counted(counts, name)[i]).0 == name
                || exists|k: int|
                0 <= k < counts.len() && (#[trigger] counts[k]).0 == counted(counts, name)[i].0,
    decreases counts.len(),
{
    let after = counted(counts, name);
    if counts.len() == 0 {
    } else if counts[0].0 == name {
        assert forall|i: int, j: int| 0 <= i < j < after.len() implies text_lt(
            (#[trigger] after[i]).0,
            (#[trigger] after[j]).0,
        ) by {
            assert(text_lt(counts[i].0, counts[j].0));
        }
        assert forall|i: int| 0 <= i < after.len() implies (#[trigger] after[i]).0 == name
            || exists|k: int| 0 <= k < counts.len() && (#[trigger] counts[k]).0 == after[i].0 by {
            assert(counts[i].0 == after[i].0);
        }
    } else if text_lt(name, counts[0].0) {
        assert forall|i: int, j: int| 0 <= i < j < after.len() implies text_lt(
            (#[trigger] after[i]).0,
            (#[trigger] after[j]).0,
        ) by {
            if i == 0 {
                if j > 1 {
                    assert(text_lt(counts[0].0, counts[j - 1].0));
                    lemma_text_lt_transitive(name, counts[0].0, counts[j - 1].0);
                }
            } else {
                assert(text_lt(counts[i - 1].0, counts[j - 1].0));
            }
        }
        assert forall|i: int| 0 <= i < after.len() implies (#[trigger] after[i]).0 == name
            || exists|k: int| 0 <= k < counts.len() && (#[trigger] counts[k]).0 == after[i].0 by {
            if i > 0 {
                assert(counts[i - 1].0 == after[i].0);
            }
        }
    } else {
        let rest = counts.skip(1);
        assert forall|i: int, j: int| 0 <= i < j < rest.len() implies text_lt(
            (#[trigger] rest[i]).0,
            (#[trigger] rest[j]).0,
        ) by {
            assert(text_lt(counts[i + 1].0, counts[j + 1].0));
        }
        lemma_counted_ascend(rest, name);
        lemma_text_lt_total(name, counts[0].0);
        let tail = counted(rest, name);
        assert forall|i: int| 0 <= i < tail.len() implies text_lt(
            counts[0].0,
            (#[trigger] tail[i]).0,
        ) by {
            if tail[i].0 != name {
                let k = choose|k: int| 0 <= k < rest.len() && (#[trigger] rest[k]).0 == tail[i].0;
                assert(text_lt(counts[0].0, counts[k + 1].0));
            }
        }
        assert forall|i: int, j: int| 0 <= i < j < after.len() implies text_lt(
            (#[trigger] after[i]).0,
            (#[trigger] after[j]).0,
        ) by {
            if i == 0 {
                assert(after[j] == tail[j - 1]);
            } else {
                assert(text_lt(tail[i - 1].0, tail[j - 1].0));
            }
        }
        assert forall|i: int| 0 <= i < after.len() implies (#[trigger] after[i]).0 == name
            || exists|k: int| 0 <= k < counts.len() && (#[trigger] counts[k]).0 == after[i].0 by {
            if i == 0 {
                assert(counts[0].0 == after[0].0);
            } else if tail[i - 1].0 != name {
                let k = choose|k: int|
                    0 <= k < rest.len() && (#[trigger] rest[k]).0 == tail[i - 1].0;
                assert(counts[k + 1].0 == after[i].0);
            }
        }
    }
}

/// How often the tool was called.
pub open spec fn times(calls: Seq<(Seq<char>, JsonV)>, name: Seq<char>) -> nat
    decreases calls.len(),
{
    if calls.len() == 0 {
        0
    } else {
        times(calls.drop_last(), name) + if calls.last().0 == name {
            1nat
        } else {
            0nat
        }
    }
}

/// What a new collector has seen after the calls.
pub open spec fn watched(calls: Seq<(Seq<char>, JsonV)>, started: u64) -> CollectorV
    decreases calls.len(),
{
    if calls.len() == 0 {
        CollectorV { tool_calls: Seq::empty(), signatures: Seq::empty(), started }
    } else {
        let before = watched(calls.drop_last(), started);
        let (name, input) = calls.last();
        CollectorV {
            tool_calls: counted(before.tool_calls, name),
            signatures: before.signatures.push(signature(name, input)),
            ..before
        }
    }
}

/// No tool was called more often than can be counted.
pub open spec fn countable(calls: Seq<(Seq<char>, JsonV)>) -> bool {
    forall|name: Seq<char>| #[trigger] times(calls, name) <= u32::MAX
}

/// A collector counts each tool as often as it was called and no other, keeps the signature of each call
/// in order, and can take note of each of them.
pub proof fn lemma_collector_counts(calls: Seq<(Seq<char>, JsonV)>, started: u64, name: Seq<char>)
    requires
        countable(calls),
    ensures
        names_ascend(watched(calls, started).tool_calls),
        count_of(watched(calls, started).tool_calls, name) == if times(calls, name) > 0 {
            Some(times(calls, name) as u32)
        } else {
            None
        },
        watched(calls, started).signatures == calls.map_values(
            |c: (Seq<char>, JsonV)| signature(c.0, c.1),
        ),
        calls.len() > 0 ==> count_of(
            watched(calls.drop_last(), started).tool_calls,
            calls.last().0,
        ) != Some(u32::MAX),
    decreases calls.len(),
{
    let all = calls.map_values(|c: (Seq<char>, JsonV)| signature(c.0, c.1));
    if calls.len() == 0 {
        assert(all =~= Seq::empty());
    } else {
        let front = calls.drop_last();
        let called = calls.last().0;
        assert(countable(front)) by {
            assert forall|n: Seq<char>| #[trigger] times(front, n) <= u32::MAX by {
                assert(times(calls, n) <= u32::MAX);
            }
        }
        lemma_collector_counts(front, started, name);
        lemma_collector_counts(front, started, called);
        let before = watched(front, started).tool_calls;
        assert(times(calls, called) == times(front, called) + 1);
        assert(times(calls, called) <= u32::MAX);
        lemma_counted(before, called, name);
        lemma_counted_ascend(before, called);
        assert(watched(calls, started).signatures =~= all);
    }
}

/// A loop stays a loop, whatever is called afterwards.
pub proof fn lemma_loop_stays(signatures: Seq<Seq<char>>, next: Seq<char>)
    requires
        goes_round(signatures),
    ensures
        goes_round(signatures.push(next)),
{
    let i = choose|i: int|
        0 <= i <= signatures.len() - LOOP_WINDOW && repeats_at(signatures, i);
    assert(repeats_at(signatures.push(next), i));
}

} // verus!

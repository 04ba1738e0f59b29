//! What the scheduler and the background tasks keep, fire, collect and tell.

use vstd::prelude::*;

use crate::background_tasks::manager::{
    collected, command_output, ended_tasks, exit_text, find_task, notification, output_text,
    running_count, started, task_ids, without_task, worker_report, BackgroundV, WorkerEnd,
    MAX_CONCURRENT, MAX_OUTPUT_BYTES, SUMMARY_CHARS,
};
use crate::background_tasks::task::{status_text, TaskStatus, TaskV};
use crate::background_tasks::tools::wake_text;
use crate::cron_scheduler::{
    acknowledged, cron_fault, cron_hits, durable_jobs, find_job, fired_jobs, ids, listed, loaded,
    minute_text, padded, put_job, requeued, saved_fault, schedule_reply, scheduled, ticked_jobs,
    without, CronJobV, CronV, Moment,
};
use crate::select::{
    holds, lemma_holds_each, lemma_holds_itself, lemma_holds_joined, lemma_holds_next,
    lemma_holds_three, lemma_holds_two, lemma_holds_within, lemma_selects_nothing,
    lemma_selects_push, picked, selects,
};
use crate::text::{
    blank, bytes_prefix, contains, decimal, first_chars, lemma_bytes_prefix, path_in, trim, words,
};
use crate::text_laws::{lemma_decimal_denotes, number_of};

verus! {

broadcast use vstd::string::group_string_axioms;

// ---- scheduled jobs ----

/// The job comes due at the minute: it is not waiting to be delivered, its expression matches the
/// minute, and it has not fired in it.
pub open spec fn comes_due(now: Moment) -> spec_fn(CronJobV) -> bool {
    |j: CronJobV|
        !j.pending_delivery && cron_hits(j.cron, now.year, now.month, now.day, now.hour, now.minute)
            && j.last_fired != Some(minute_text(now))
}

/// The job waits to be delivered, and has fired in the minute.
pub open spec fn having_fired(now: Moment) -> spec_fn(CronJobV) -> CronJobV {
    |j: CronJobV| CronJobV { pending_delivery: true, last_fired: Some(minute_text(now)), ..j }
}

/// A tick fires every job that comes due, once and in order, and no other; it marks those and leaves
/// every other job as it is.
pub proof fn lemma_tick_fires_the_due(jobs: Seq<CronJobV>, now: Moment)
    ensures
        selects(jobs, fired_jobs(jobs, now), comes_due(now), having_fired(now)),
        ticked_jobs(jobs, now).len() == jobs.len(),
        forall|i: int|
            0 <= i < jobs.len() ==> #[trigger] ticked_jobs(jobs, now)[i] == if comes_due(now)(
                jobs[i],
            ) {
                having_fired(now)(jobs[i])
            } else {
                jobs[i]
            },
    decreases jobs.len(),
{
    if jobs.len() == 0 {
        lemma_selects_nothing::<CronJobV, CronJobV>(comes_due(now), having_fired(now));
        assert(jobs =~= Seq::<CronJobV>::empty());
    } else {
        let front = jobs.drop_last();
        lemma_tick_fires_the_due(front, now);
        lemma_selects_push(
            front,
            fired_jobs(front, now),
            comes_due(now),
            having_fired(now),
            jobs.last(),
        );
        assert(front.push(jobs.last()) =~= jobs);
    }
}

/// The job has another identifier.
pub open spec fn not_named(id: Seq<char>) -> spec_fn(CronJobV) -> bool {
    |j: CronJobV| j.id != id
}

/// The job itself.
pub open spec fn the_job() -> spec_fn(CronJobV) -> CronJobV {
    |j: CronJobV| j
}

/// Cancelling takes out the jobs of that identifier and leaves every other, in order.
pub proof fn lemma_cancel_takes_one(jobs: Seq<CronJobV>, id: Seq<char>)
    ensures
        selects(jobs, without(jobs, id), not_named(id), the_job()),
    decreases jobs.len(),
{
    if jobs.len() == 0 {
        lemma_selects_nothing::<CronJobV, CronJobV>(not_named(id), the_job());
        assert(jobs =~= Seq::<CronJobV>::empty());
    } else {
        let front = jobs.drop_last();
        lemma_cancel_takes_one(front, id);
        lemma_selects_push(front, without(front, id), not_named(id), the_job(), jobs.last());
        assert(front.push(jobs.last()) =~= jobs);
    }
}

/// Where no job has the identifier, every job stays.
pub proof fn lemma_cancel_unknown(jobs: Seq<CronJobV>, id: Seq<char>)
    ensures
        !ids(jobs).contains(id) ==> without(jobs, id) == jobs,
    decreases jobs.len(),
{
    if jobs.len() > 0 && !ids(jobs).contains(id) {
        let front = jobs.drop_last();
        if ids(front).contains(id) {
            let i = choose|i: int| 0 <= i < front.len() && ids(front)[i] == id;
            assert(ids(jobs)[i] == id);
        }
        lemma_cancel_unknown(front, id);
        assert(ids(jobs)[jobs.len() - 1] == jobs.last().id);
        assert(front.push(jobs.last()) =~= jobs);
    } else if jobs.len() == 0 {
        assert(without(jobs, id) =~= jobs);
    }
}

/// The job outlives the session.
pub open spec fn is_durable() -> spec_fn(CronJobV) -> bool {
    |j: CronJobV| j.durable
}

/// Every durable job is saved, as it is and in order, and no other is.
pub proof fn lemma_durable_are_saved(jobs: Seq<CronJobV>)
    ensures
        selects(jobs, durable_jobs(jobs), is_durable(), the_job()),
    decreases jobs.len(),
{
    if jobs.len() == 0 {
        lemma_selects_nothing::<CronJobV, CronJobV>(is_durable(), the_job());
        assert(jobs =~= Seq::<CronJobV>::empty());
    } else {
        let front = jobs.drop_last();
        lemma_durable_are_saved(front);
        lemma_selects_push(front, durable_jobs(front), is_durable(), the_job(), jobs.last());
        assert(front.push(jobs.last()) =~= jobs);
    }
}

/// The job stays after the delivery of those named.
pub open spec fn stays_after(delivered: Seq<Seq<char>>) -> spec_fn(CronJobV) -> bool {
    |j: CronJobV| j.recurring || !delivered.contains(j.id)
}

/// The job after the delivery of those named.
pub open spec fn after_delivery(delivered: Seq<Seq<char>>) -> spec_fn(CronJobV) -> CronJobV {
    |j: CronJobV|
        if delivered.contains(j.id) {
            CronJobV { pending_delivery: false, ..j }
        } else {
            j
        }
}

/// A delivery takes out the jobs that run once, lets those that recur wait for their next time, and
/// leaves every job that was not delivered as it is, all in order.
pub proof fn lemma_delivery_settles(jobs: Seq<CronJobV>, delivered: Seq<Seq<char>>)
    ensures
        selects(
            jobs,
            acknowledged(jobs, delivered),
            stays_after(delivered),
            after_delivery(delivered),
        ),
    decreases jobs.len(),
{
    if jobs.len() == 0 {
        lemma_selects_nothing::<CronJobV, CronJobV>(
            stays_after(delivered),
            after_delivery(delivered),
        );
        assert(jobs =~= Seq::<CronJobV>::empty());
    } else {
        let front = jobs.drop_last();
        lemma_delivery_settles(front, delivered);
        lemma_selects_push(
            front,
            acknowledged(front, delivered),
            stays_after(delivered),
            after_delivery(delivered),
            jobs.last(),
        );
        assert(front.push(jobs.last()) =~= jobs);
    }
}

/// The job of an identifier is one of that identifier; there is none only where no job has it.
pub proof fn lemma_find_job(jobs: Seq<CronJobV>, id: Seq<char>)
    ensures
        find_job(jobs, id) matches Some(j) ==> jobs.contains(j) && j.id == id,
        find_job(jobs, id) is None <==> !ids(jobs).contains(id),
    decreases jobs.len(),
{
    if jobs.len() > 0 {
        if jobs[0].id == id {
            assert(jobs.contains(jobs[0]));
            assert(ids(jobs)[0] == id);
        } else {
            let rest = jobs.skip(1);
            lemma_find_job(rest, id);
            if let Some(j) = find_job(rest, id) {
                let i = choose|i: int| 0 <= i < rest.len() && rest[i] == j;
                assert(jobs[i + 1] == j);
                assert(ids(jobs)[i + 1] == id);
            } else if ids(jobs).contains(id) {
                let i = choose|i: int| 0 <= i < jobs.len() && ids(jobs)[i] == id;
                assert(ids(rest)[i - 1] == id);
            }
        }
    }
}

/// The delivered job is known and not queued yet.
pub open spec fn to_requeue(jobs: Seq<CronJobV>, queued: Seq<Seq<char>>) -> spec_fn(Seq<char>) -> bool {
    |id: Seq<char>| ids(jobs).contains(id) && !queued.contains(id)
}

/// The job of the identifier, waiting to be delivered.
pub open spec fn waiting_again(jobs: Seq<CronJobV>) -> spec_fn(Seq<char>) -> CronJobV {
    |id: Seq<char>| CronJobV { pending_delivery: true, ..find_job(jobs, id)->Some_0 }
}

/// What could not be delivered is queued again: every job that is still known and not queued, in
/// order, and nothing else.
pub proof fn lemma_undelivered_is_queued(
    jobs: Seq<CronJobV>,
    queued: Seq<Seq<char>>,
    delivered: Seq<Seq<char>>,
)
    ensures
        selects(
            delivered,
            requeued(jobs, queued, delivered),
            to_requeue(jobs, queued),
            waiting_again(jobs),
        ),
    decreases delivered.len(),
{
    if delivered.len() == 0 {
        lemma_selects_nothing::<Seq<char>, CronJobV>(
            to_requeue(jobs, queued),
            waiting_again(jobs),
        );
        assert(delivered =~= Seq::<Seq<char>>::empty());
    } else {
        let front = delivered.drop_last();
        lemma_undelivered_is_queued(jobs, queued, front);
        lemma_find_job(jobs, delivered.last());
        lemma_selects_push(
            front,
            requeued(jobs, queued, front),
            to_requeue(jobs, queued),
            waiting_again(jobs),
            delivered.last(),
        );
        assert(front.push(delivered.last()) =~= delivered);
    }
}

/// A job that is put in is there, and every job of another identifier stays as it is and where it is.
pub proof fn lemma_put_job(jobs: Seq<CronJobV>, job: CronJobV)
    ensures
        put_job(jobs, job).contains(job),
        put_job(jobs, job).len() == jobs.len() + if ids(jobs).contains(job.id) {
            0int
        } else {
            1int
        },
        forall|i: int|
            0 <= i < jobs.len() && (#[trigger] jobs[i]).id != job.id ==> put_job(jobs, job)[i]
                == jobs[i],
{
    let out = put_job(jobs, job);
    if ids(jobs).contains(job.id) {
        let i = choose|i: int| 0 <= i < jobs.len() && ids(jobs)[i] == job.id;
        assert(out[i] == job);
    } else {
        assert(out[jobs.len() as int] == job);
    }
}

/// Scheduling is refused for a faulty expression, an empty prompt or for want of an identifier, and
/// then nothing changes. Else the job is there as it was asked for, not due and never fired, under an
/// identifier that no job had, and every other job stays.
pub proof fn lemma_schedule_adds(
    state: CronV,
    cron: Seq<char>,
    prompt: Seq<char>,
    recurring: bool,
    durable: bool,
    fault: Option<Seq<char>>,
    draws: Seq<u32>,
)
    ensures
        ({
            let (after, r) = scheduled(state, cron, prompt, recurring, durable, fault, draws);
            &&& r is Err ==> after == state
            &&& fault is Some || blank(prompt) ==> r is Err
            &&& r matches Ok(j) ==> {
                &&& j.cron == cron && j.prompt == prompt
                &&& j.recurring == recurring && j.durable == durable
                &&& !j.pending_delivery && j.last_fired is None
                &&& !ids(state.jobs).contains(j.id)
                &&& after.jobs == state.jobs.push(j)
                &&& after.queue == state.queue
                &&& durable ==> after.unsaved
            }
        }),
{
    crate::cron_scheduler::lemma_first_free(state.jobs, draws);
}

/// The saved job can be used.
pub open spec fn usable() -> spec_fn(CronJobV) -> bool {
    |j: CronJobV| saved_fault(j) is None
}

/// The saved job can be used and waits to be delivered.
pub open spec fn usable_waiting() -> spec_fn(CronJobV) -> bool {
    |j: CronJobV| saved_fault(j) is None && j.pending_delivery
}

/// The saved job cannot be used.
pub open spec fn unusable() -> spec_fn(CronJobV) -> bool {
    |j: CronJobV| saved_fault(j) is Some
}

/// Why the saved job cannot be used.
pub open spec fn its_fault() -> spec_fn(CronJobV) -> Seq<char> {
    |j: CronJobV| saved_fault(j)->Some_0
}

/// Loading takes in every saved job that can be used and says of every other why not, in order. Those
/// that wait to be delivered are queued behind what was queued before.
pub proof fn lemma_load_is_complete(state: CronV, payload: Seq<CronJobV>)
    ensures
        ({
            let (after, n, notes) = loaded(state, payload);
            &&& n + notes.len() == payload.len()
            &&& selects(payload, notes, unusable(), its_fault())
            &&& exists|queue: Seq<CronJobV>| #[trigger]
                selects(payload, queue, usable_waiting(), the_job()) && after.queue == state.queue
                    + queue
            &&& forall|i: int|
                0 <= i < payload.len() && usable()(#[trigger] payload[i]) ==> ids(
                    after.jobs,
                ).contains(payload[i].id)
            &&& forall|i: int|
                0 <= i < state.jobs.len() ==> ids(after.jobs).contains(
                    (#[trigger] state.jobs[i]).id,
                )
        }),
    decreases payload.len(),
{
    let (after, n, notes) = loaded(state, payload);
    if payload.len() == 0 {
        lemma_selects_nothing::<CronJobV, Seq<char>>(unusable(), its_fault());
        lemma_selects_nothing::<CronJobV, CronJobV>(usable_waiting(), the_job());
        assert(payload =~= Seq::<CronJobV>::empty());
        assert(state.queue + Seq::<CronJobV>::empty() =~= state.queue);
        assert forall|i: int| 0 <= i < state.jobs.len() implies ids(after.jobs).contains(
            (#[trigger] state.jobs[i]).id,
        ) by {
            assert(ids(after.jobs)[i] == state.jobs[i].id);
        }
    } else {
        let front = payload.drop_last();
        let j = payload.last();
        lemma_load_is_complete(state, front);
        let (before, m, old_notes) = loaded(state, front);
        let queue = choose|queue: Seq<CronJobV>| #[trigger]
            selects(front, queue, usable_waiting(), the_job()) && before.queue == state.queue
                + queue;
        lemma_selects_push(front, old_notes, unusable(), its_fault(), j);
        lemma_selects_push(front, queue, usable_waiting(), the_job(), j);
        assert(front.push(j) =~= payload);
        if usable_waiting()(j) {
            assert(state.queue + queue.push(j) =~= (state.queue + queue).push(j));
            assert(selects(payload, queue.push(j), usable_waiting(), the_job()));
        } else {
            assert(selects(payload, queue, usable_waiting(), the_job()));
        }
        assert forall|id: Seq<char>| ids(before.jobs).contains(id) || (usable()(j) && id == j.id) implies ids(
        after.jobs).contains(id) by {
            if usable()(j) {
                lemma_put_keeps_ids(before.jobs, j, id);
            }
        }
        assert forall|i: int| 0 <= i < payload.len() && usable()(#[trigger] payload[i]) implies ids(
            after.jobs,
        ).contains(payload[i].id) by {
            if i < front.len() {
                assert(front[i] == payload[i]);
                assert(ids(before.jobs).contains(front[i].id));
            }
        }
    }
}

proof fn lemma_put_keeps_ids(jobs: Seq<CronJobV>, job: CronJobV, id: Seq<char>)
    requires
        ids(jobs).contains(id) || id == job.id,
    ensures
        ids(put_job(jobs, job)).contains(id),
{
    let out = put_job(jobs, job);
    if ids(jobs).contains(id) {
        let i = choose|i: int| 0 <= i < jobs.len() && ids(jobs)[i] == id;
        assert(ids(out)[i] == id);
    } else {
        assert(ids(out)[jobs.len() as int] == id);
    }
}

/// What the model is told of a scheduled job holds its identifier, its expression and its prompt; of a
/// refusal, the reason.
pub proof fn lemma_schedule_is_told(outcome: Result<CronJobV, Seq<char>>)
    ensures
        outcome matches Ok(j) ==> holds(schedule_reply(outcome), seq![j.id, j.cron, j.prompt]),
        outcome matches Err(e) ==> e.is_suffix_of(schedule_reply(outcome)),
{
    let out = schedule_reply(outcome);
    match outcome {
        Ok(j) => {
            let e = Seq::<char>::empty();
            lemma_holds_three("Scheduled "@, j.id, ": "@, j.cron, " -> "@, j.prompt, e);
            assert("Scheduled "@ + j.id + ": "@ + j.cron + " -> "@ + j.prompt + e =~= out);
        },
        Err(e) => {
            assert(out.subrange(out.len() - e.len(), out.len() as int) =~= e);
        },
    }
}

/// A line of the list of jobs tells the job's identifier, its expression and how its prompt begins.
pub proof fn lemma_listed_tells(j: CronJobV)
    ensures
        holds(listed(j), seq![j.id, j.cron, first_chars(j.prompt, 60)]),
        j.recurring ==> contains(listed(j), "recurring"@),
        !j.recurring ==> contains(listed(j), "one-shot"@),
        j.durable ==> contains(listed(j), "durable"@),
        !j.durable ==> contains(listed(j), "session"@),
{
    let e = Seq::<char>::empty();
    let p = first_chars(j.prompt, 60);
    let a = if j.recurring {
        "recurring"@
    } else {
        "one-shot"@
    };
    let b = if j.durable {
        "durable"@
    } else {
        "session"@
    };
    lemma_holds_three(e, j.id, ": "@, j.cron, " -> "@, p, " ["@ + a + ", "@ + b + "]"@);
    assert(e + j.id + ": "@ + j.cron + " -> "@ + p + (" ["@ + a + ", "@ + b + "]"@) =~= listed(j));
    let head = j.id + ": "@ + j.cron + " -> "@ + p + " ["@;
    lemma_holds_two(head, a, ", "@, b, "]"@);
    assert(head + a + ", "@ + b + "]"@ =~= listed(j));
    lemma_holds_each(listed(j), seq![a, b], 0);
    lemma_holds_each(listed(j), seq![a, b], 1);
}

proof fn lemma_leading_zeros(k: nat, digits: Seq<char>)
    ensures
        number_of(Seq::new(k, |i: int| '0') + digits) == number_of(digits),
    decreases k + digits.len(),
{
    let all = Seq::new(k, |i: int| '0') + digits;
    if digits.len() > 0 {
        lemma_leading_zeros(k, digits.drop_last());
        assert(all.drop_last() =~= Seq::new(k, |i: int| '0') + digits.drop_last());
        assert(all.last() == digits.last());
    } else if k > 0 {
        lemma_leading_zeros((k - 1) as nat, digits);
        assert(all.drop_last() =~= Seq::new((k - 1) as nat, |i: int| '0') + digits);
        assert(all.last() == '0');
    }
}

proof fn lemma_padded(n: nat, width: nat)
    requires
        width == 2 && n < 100 || width == 4 && n < 10000,
    ensures
        padded(n, width).len() == width,
        number_of(padded(n, width)) == n,
{
    lemma_decimal_denotes(n);
    reveal_with_fuel(decimal, 5);
    let digits = decimal(n);
    assert(n < 100 ==> digits.len() <= 2);
    assert(n < 10000 ==> digits.len() <= 4);
    if digits.len() < width {
        lemma_leading_zeros((width - digits.len()) as nat, digits);
    }
}

/// Two minutes of years up to 9999 have the same text only where they are the same minute: a job that
/// fired in one can fire in any other.
pub proof fn lemma_minutes_differ(a: Moment, b: Moment)
    requires
        a.year <= 9999 && b.year <= 9999,
        a.month < 100 && a.day < 100 && a.hour < 100 && a.minute < 100,
        b.month < 100 && b.day < 100 && b.hour < 100 && b.minute < 100,
        minute_text(a) == minute_text(b),
    ensures
        a.year == b.year && a.month == b.month && a.day == b.day && a.hour == b.hour && a.minute
            == b.minute,
{
    lemma_minute_parts(a);
    lemma_minute_parts(b);
}

proof fn lemma_minute_parts(m: Moment)
    requires
        m.year <= 9999,
        m.month < 100 && m.day < 100 && m.hour < 100 && m.minute < 100,
    ensures
        ({
            let t = minute_text(m);
            &&& number_of(t.subrange(0, 4)) == m.year
            &&& number_of(t.subrange(5, 7)) == m.month
            &&& number_of(t.subrange(8, 10)) == m.day
            &&& number_of(t.subrange(11, 13)) == m.hour
            &&& number_of(t.subrange(14, 16)) == m.minute
        }),
{
    reveal_strlit("-");
    reveal_strlit(" ");
    reveal_strlit(":");
    lemma_padded(m.year as nat, 4);
    lemma_padded(m.month as nat, 2);
    lemma_padded(m.day as nat, 2);
    lemma_padded(m.hour as nat, 2);
    lemma_padded(m.minute as nat, 2);
    let t = minute_text(m);
    assert(t.subrange(0, 4) =~= padded(m.year as nat, 4));
    assert(t.subrange(5, 7) =~= padded(m.month as nat, 2));
    assert(t.subrange(8, 10) =~= padded(m.day as nat, 2));
    assert(t.subrange(11, 13) =~= padded(m.hour as nat, 2));
    assert(t.subrange(14, 16) =~= padded(m.minute as nat, 2));
}

// ---- background tasks ----

/// The task is running.
pub open spec fn is_running() -> spec_fn(TaskV) -> bool {
    |t: TaskV| t.status == TaskStatus::Running
}

/// The number of running tasks is the number of tasks that are running.
pub proof fn lemma_running_counted(tasks: Seq<TaskV>)
    ensures
        exists|at: Seq<int>| #[trigger]
            picked(at, tasks, is_running()) && at.len() == running_count(tasks),
    decreases tasks.len(),
{
    if tasks.len() == 0 {
        assert(picked(Seq::empty(), tasks, is_running()));
        assert(Seq::<int>::empty().len() == running_count(tasks));
    } else {
        let front = tasks.drop_last();
        lemma_running_counted(front);
        let at = choose|at: Seq<int>| #[trigger]
            picked(at, front, is_running()) && at.len() == running_count(front);
        let made = |t: TaskV| 0int;
        let zeros = Seq::new(at.len(), |j: int| 0int);
        assert(selects(front, zeros, is_running(), made));
        lemma_selects_push(front, zeros, is_running(), made, tasks.last());
        assert(front.push(tasks.last()) =~= tasks);
        let n = if is_running()(tasks.last()) {
            zeros.push(0int)
        } else {
            zeros
        };
        let to = choose|to: Seq<int>| #[trigger]
            picked(to, tasks, is_running()) && to.len() == n.len();
        assert(picked(to, tasks, is_running()) && to.len() == running_count(tasks));
    }
}

/// The task of an identifier is one of that identifier; there is none only where no task has it.
pub proof fn lemma_find_task(tasks: Seq<TaskV>, id: Seq<char>)
    ensures
        find_task(tasks, id) matches Some(t) ==> tasks.contains(t) && t.id == id,
        find_task(tasks, id) is None <==> !task_ids(tasks).contains(id),
    decreases tasks.len(),
{
    if tasks.len() > 0 {
        if tasks[0].id == id {
            assert(tasks.contains(tasks[0]));
            assert(task_ids(tasks)[0] == id);
        } else {
            let rest = tasks.skip(1);
            lemma_find_task(rest, id);
            if let Some(t) = find_task(rest, id) {
                let i = choose|i: int| 0 <= i < rest.len() && rest[i] == t;
                assert(tasks[i + 1] == t);
                assert(task_ids(tasks)[i + 1] == id);
            } else if task_ids(tasks).contains(id) {
                let i = choose|i: int| 0 <= i < tasks.len() && task_ids(tasks)[i] == id;
                assert(task_ids(rest)[i - 1] == id);
            }
        }
    }
}

/// The task has another identifier.
pub open spec fn other_task(id: Seq<char>) -> spec_fn(TaskV) -> bool {
    |t: TaskV| t.id != id
}

/// The task itself.
pub open spec fn the_task() -> spec_fn(TaskV) -> TaskV {
    |t: TaskV| t
}

/// Taking a task out leaves every other, in order.
pub proof fn lemma_task_taken_out(tasks: Seq<TaskV>, id: Seq<char>)
    ensures
        selects(tasks, without_task(tasks, id), other_task(id), the_task()),
    decreases tasks.len(),
{
    if tasks.len() == 0 {
        lemma_selects_nothing::<TaskV, TaskV>(other_task(id), the_task());
        assert(tasks =~= Seq::<TaskV>::empty());
    } else {
        let front = tasks.drop_last();
        lemma_task_taken_out(front, id);
        lemma_selects_push(front, without_task(front, id), other_task(id), the_task(), tasks.last());
        assert(front.push(tasks.last()) =~= tasks);
    }
}

/// Collecting hands out the task of every identifier that is ready, as it is, and hands out no other;
/// every task whose identifier is not ready stays.
pub proof fn lemma_collects_the_ready(tasks: Seq<TaskV>, ready: Seq<Seq<char>>)
    ensures
        ({
            let (left, taken) = collected(tasks, ready);
            &&& forall|i: int|
                0 <= i < taken.len() ==> tasks.contains(#[trigger] taken[i]) && ready.contains(
                    taken[i].id,
                )
            &&& forall|k: int|
                0 <= k < ready.len() && task_ids(tasks).contains(#[trigger] ready[k]) ==> task_ids(
                    taken,
                ).contains(ready[k])
            &&& forall|t: TaskV| #[trigger]
                tasks.contains(t) && !ready.contains(t.id) ==> left.contains(t)
            &&& forall|t: TaskV| #[trigger] left.contains(t) ==> tasks.contains(t)
        }),
    decreases ready.len(),
{
    if ready.len() > 0 {
        let front = ready.drop_last();
        let id = ready.last();
        lemma_collects_the_ready(tasks, front);
        let (left, taken) = collected(tasks, front);
        let (left2, taken2) = collected(tasks, ready);
        assert(front.push(id) =~= ready);
        assert forall|x: Seq<char>| #[trigger] front.contains(x) implies ready.contains(x) by {
            let i = choose|i: int| 0 <= i < front.len() && front[i] == x;
            assert(ready[i] == x);
        }
        assert(ready[ready.len() - 1] == id);
        lemma_find_task(left, id);
        lemma_task_taken_out(left, id);
        crate::select::lemma_selects_each(left, without_task(left, id), other_task(id), the_task());
        assert forall|t: TaskV| #[trigger] tasks.contains(t) && !ready.contains(t.id) implies left2.contains(
            t) by {
            assert(left.contains(t));
            let i = choose|i: int| 0 <= i < left.len() && left[i] == t;
            assert(other_task(id)(left[i]));
        }
        assert forall|t: TaskV| #[trigger] left2.contains(t) implies tasks.contains(t) by {
            if find_task(left, id) is Some {
                let i = choose|i: int| 0 <= i < left2.len() && left2[i] == t;
                let k = crate::select::lemma_selects_from(
                    left,
                    left2,
                    other_task(id),
                    the_task(),
                    i,
                );
                assert(left.contains(left[k]));
            }
        }
        assert forall|i: int| 0 <= i < taken2.len() implies tasks.contains(#[trigger] taken2[i])
            && ready.contains(taken2[i].id) by {
            if i < taken.len() {
                assert(taken2[i] == taken[i]);
                assert(front.contains(taken[i].id));
            }
        }
        assert forall|k: int| 0 <= k < ready.len() && task_ids(tasks).contains(
            #[trigger] ready[k],
        ) implies task_ids(taken2).contains(ready[k]) by {
            let x = ready[k];
            if k < front.len() {
                assert(front[k] == x);
                let i = choose|i: int| 0 <= i < taken.len() && task_ids(taken)[i] == x;
                assert(task_ids(taken2)[i] == x);
            } else if find_task(left, id) is Some {
                assert(task_ids(taken2)[taken.len() as int] == id);
            } else {
                let m = choose|m: int| 0 <= m < tasks.len() && task_ids(tasks)[m] == id;
                assert(tasks.contains(tasks[m]));
                if front.contains(id) {
                    let q = choose|q: int| 0 <= q < front.len() && front[q] == id;
                    assert(task_ids(taken).contains(front[q]));
                } else {
                    assert(left.contains(tasks[m]));
                    let i = choose|i: int| 0 <= i < left.len() && left[i] == tasks[m];
                    assert(task_ids(left)[i] == id);
                }
            }
        }
    } else {
        assert(collected(tasks, ready).0 == tasks);
    }
}

/// The end of a task changes its status and its exit code, and no other task.
pub proof fn lemma_end_is_kept(
    tasks: Seq<TaskV>,
    id: Seq<char>,
    status: TaskStatus,
    exit_code: Option<i32>,
)
    ensures
        ended_tasks(tasks, id, status, exit_code).len() == tasks.len(),
        forall|i: int|
            0 <= i < tasks.len() ==> {
                let t = #[trigger] ended_tasks(tasks, id, status, exit_code)[i];
                if tasks[i].id == id {
                    t == (TaskV { status, exit_code, ..tasks[i] })
                } else {
                    t == tasks[i]
                }
            },
{
}

/// A notification tells the task's identifier, its status, its command, its exit code and how its
/// output begins, in order.
pub proof fn lemma_notification_tells(t: TaskV, contents: Option<Seq<char>>)
    ensures
        ({
            let summary = match contents {
                Some(s) => first_chars(trim(s), SUMMARY_CHARS as int),
                None => "(output unavailable)"@,
            };
            holds(
                notification(t, contents),
                seq![t.id, status_text(t.status), t.command, exit_text(t.exit_code), summary],
            )
        }),
{
    let summary = match contents {
        Some(s) => first_chars(trim(s), SUMMARY_CHARS as int),
        None => "(output unavailable)"@,
    };
    let e = Seq::<char>::empty();
    let w = status_text(t.status);
    let x = exit_text(t.exit_code);
    let a = "<task_notification>\n  <task_id>"@;
    let b = "</task_id>\n  <status>"@;
    let c = "</status>\n  <command>"@;
    lemma_holds_three(a, t.id, b, w, c, t.command, e);
    let t3 = a + t.id + b + w + c + t.command + e;
    let d = "</command>\n  <exit_code>"@;
    let p3 = seq![t.id, w, t.command];
    lemma_holds_next(t3, p3, d, x);
    let t4 = t3 + d + x;
    let f = "</exit_code>\n  <summary>"@;
    lemma_holds_next(t4, p3.push(x), f, summary);
    let t5 = t4 + f + summary;
    let z = "</summary>\n</task_notification>"@;
    lemma_holds_within(e, t5, z, p3.push(x).push(summary));
    assert(e + t5 + z =~= notification(t, contents));
    assert(p3.push(x).push(summary) =~= seq![t.id, w, t.command, x, summary]);
}

/// What the model reads of a task tells its identifier, its status, its command, its exit code and its
/// output, in order: all of the output, but for white space around it, up to the limit.
pub proof fn lemma_output_is_told(t: TaskV, contents: Seq<char>)
    ensures
        ({
            let shown = bytes_prefix(trim(contents), MAX_OUTPUT_BYTES as nat);
            &&& holds(
                output_text(t, contents),
                seq![t.id, status_text(t.status), t.command, exit_text(t.exit_code), shown],
            )
            &&& shown.is_prefix_of(trim(contents))
            &&& shown.is_suffix_of(output_text(t, contents))
        }),
{
    let shown = bytes_prefix(trim(contents), MAX_OUTPUT_BYTES as nat);
    lemma_bytes_prefix(trim(contents), MAX_OUTPUT_BYTES as nat);
    let e = Seq::<char>::empty();
    let w = status_text(t.status);
    let x = exit_text(t.exit_code);
    lemma_holds_three("task_id: "@, t.id, "\nstatus: "@, w, "\ncommand: "@, t.command, e);
    let t3 = "task_id: "@ + t.id + "\nstatus: "@ + w + "\ncommand: "@ + t.command + e;
    let p3 = seq![t.id, w, t.command];
    lemma_holds_next(t3, p3, "\nexit_code: "@, x);
    let t4 = t3 + "\nexit_code: "@ + x;
    lemma_holds_next(t4, p3.push(x), "\noutput:\n"@, shown);
    let out = output_text(t, contents);
    assert(t4 + "\noutput:\n"@ + shown =~= out);
    assert(p3.push(x).push(shown) =~= seq![t.id, w, t.command, x, shown]);
    assert(out.subrange(out.len() - shown.len(), out.len() as int) =~= shown);
}

/// A worker's task is completed only where the command ran to its end with code zero; one that was
/// stopped is cancelled; every other is failed. The code is kept, and where there is a reason it is
/// told.
pub proof fn lemma_worker_is_judged(end: WorkerEnd)
    ensures
        ({
            let (status, code, text) = worker_report(end);
            &&& status == TaskStatus::Completed <==> (end matches WorkerEnd::Exited { code, .. }
                && code == Some(0i32))
            &&& status == TaskStatus::Cancelled <==> end is Cancelled
            &&& status != TaskStatus::Running
            &&& end matches WorkerEnd::Exited { code: c, stdout, stderr } ==> code == c && (
            trim(stdout@ + "\n"@ + stderr@).len() > 0 ==> text.is_prefix_of(
                trim(stdout@ + "\n"@ + stderr@),
            ))
            &&& end !is Exited ==> code is None
            &&& end matches WorkerEnd::SpawnFailed(e) ==> e@.is_suffix_of(text)
            &&& end matches WorkerEnd::WaitFailed(e) ==> e@.is_suffix_of(text)
            &&& end matches WorkerEnd::TimedOut { seconds } ==> contains(
                text,
                decimal(seconds as nat),
            )
        }),
{
    let (status, code, text) = worker_report(end);
    match end {
        WorkerEnd::Exited { code, stdout, stderr } => {
            let body = trim(stdout@ + "\n"@ + stderr@);
            lemma_bytes_prefix(body, MAX_OUTPUT_BYTES as nat);
            assert(text == command_output(stdout@, stderr@));
        },
        WorkerEnd::SpawnFailed(e) => {
            assert(text.subrange(text.len() - e@.len(), text.len() as int) =~= e@);
        },
        WorkerEnd::WaitFailed(e) => {
            assert(text.subrange(text.len() - e@.len(), text.len() as int) =~= e@);
        },
        WorkerEnd::TimedOut { seconds } => {
            let d = decimal(seconds as nat);
            lemma_holds_itself(d);
            lemma_holds_within("Error: Timeout ("@, d, "s)"@, seq![d]);
            lemma_holds_each(text, seq![d], 0);
        },
        _ => {},
    }
}

/// The text that wakes the agent holds every notification, whole and in order.
pub proof fn lemma_wake_tells(notifications: Seq<Seq<char>>)
    ensures
        wake_text(notifications) is None <==> notifications.len() == 0,
        wake_text(notifications) matches Some(t) ==> holds(t, notifications),
{
    lemma_holds_joined(notifications, "\n"@);
}

/// A background task is refused for an empty command, for too many that run, or for want of an
/// identifier, and then nothing changes. Else it runs the command that was given, without white space
/// around it, for the call that asked, under an identifier that no task had, behind every other.
pub proof fn lemma_start_adds(
    state: BackgroundV,
    command: Seq<char>,
    call_id: Seq<char>,
    started_at: u64,
    draws: Seq<u32>,
)
    ensures
        ({
            let (after, r) = started(state, command, call_id, started_at, draws);
            &&& r is Err ==> after == state
            &&& trim(command).len() == 0 ==> r is Err
            &&& running_count(state.tasks) >= MAX_CONCURRENT ==> r is Err
            &&& r matches Ok(id) ==> {
                let t = after.tasks.last();
                &&& after.tasks.len() == state.tasks.len() + 1
                &&& after.tasks.drop_last() == state.tasks
                &&& t.id == id && t.command == trim(command) && t.call_id == call_id
                &&& t.status == TaskStatus::Running && t.exit_code is None
                &&& t.started_at == started_at
                &&& contains(t.output_file, id)
                &&& after.ready == state.ready
            }
        }),
{
    let (after, r) = started(state, command, call_id, started_at, draws);
    if let Ok(id) = r {
        assert(after.tasks.drop_last() =~= state.tasks);
        let name = id + ".log"@;
        let path = path_in(state.output_dir, name);
        lemma_holds_itself(id);
        if state.output_dir.len() == 0 || state.output_dir.last() == '/' {
            lemma_holds_within(state.output_dir, id, ".log"@, seq![id]);
            assert(state.output_dir + id + ".log"@ =~= path);
        } else {
            lemma_holds_within(state.output_dir + "/"@, id, ".log"@, seq![id]);
            assert(state.output_dir + "/"@ + id + ".log"@ =~= path);
        }
        lemma_holds_each(path, seq![id], 0);
    }
}

/// An expression is accepted where and only where it has five fields and can be read.
pub proof fn lemma_expression_is_judged(expr: Seq<char>, parse: Option<Seq<char>>)
    ensures
        cron_fault(expr, parse) is None <==> words(expr).len() == 5 && parse is None,
        words(expr).len() == 5 ==> cron_fault(expr, parse) == parse,
        words(expr).len() != 5 ==> decimal(words(expr).len()).is_suffix_of(
            cron_fault(expr, parse)->Some_0,
        ),
{
    let d = decimal(words(expr).len());
    let t = "Expected 5 fields, got "@ + d;
    assert(t.subrange(t.len() - d.len(), t.len() as int) =~= d);
}

} // verus!

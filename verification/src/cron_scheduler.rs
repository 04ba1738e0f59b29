//! Cron scheduler: prompts that are delivered to the agent when a 5-field cron expression matches
//! the clock.
//!
//! Once a minute the jobs that are due are marked as pending and put into the delivery queue; the
//! agent loop takes the queue at the top of a turn, and acknowledges the jobs or gives them back.
//! Durable jobs are written to `.scheduled_tasks.json` whenever one of them changed.

use vstd::prelude::*;

use crate::json::{
    bool_of, field, fields_view, list_view, text_field, Json, JsonV,
};
use crate::random::random_draws;
use crate::schedule_laws::{
    after_delivery, comes_due, having_fired, lemma_cancel_takes_one, lemma_cancel_unknown,
    lemma_delivery_settles, lemma_find_job, lemma_tick_fires_the_due, lemma_undelivered_is_queued,
    not_named, stays_after, the_job, to_requeue, waiting_again,
};
use crate::select::{holds, lemma_holds_joined, selects};
use crate::text::{
    blank, concat2, concat3, decimal, decimal_u64, decimal_usize, first_chars, hex8, hex_digits,
    is_blank, join, join_path, joined, owned, path_in, split_words, str_eq, str_starts_with,
    take_chars, texts, words,
};
use crate::tools::{flag, flag_v, put, put_text, schema, schema_v, typed, typed_v, AgentKind, PermissionCheck};

verus! {

broadcast use vstd::string::group_string_axioms;

/// How many ids are tried for a new job.
pub const MAX_ID_RETRIES: usize = 100;

/// The file that holds the durable jobs.
pub const DURABLE_FILE: &'static str = ".scheduled_tasks.json";

// ---- jobs ----

/// A scheduled prompt.
#[derive(Debug)]
pub struct CronJob {
    /// `cron_` and eight hexadecimal digits.
    pub id: String,
    /// The 5-field cron expression.
    pub cron: String,
    /// The prompt that is delivered.
    pub prompt: String,
    /// Whether the job stays after its delivery.
    pub recurring: bool,
    /// Whether the job is kept on disk.
    pub durable: bool,
    /// Whether the job is queued and not yet acknowledged.
    pub pending_delivery: bool,
    /// The minute in which the job was last queued.
    pub last_fired: Option<String>,
}

/// A job, with texts as sequences of characters.
#[verifier::ext_equal]
pub struct CronJobV {
    pub id: Seq<char>,
    pub cron: Seq<char>,
    pub prompt: Seq<char>,
    pub recurring: bool,
    pub durable: bool,
    pub pending_delivery: bool,
    pub last_fired: Option<Seq<char>>,
}

impl View for CronJob {
    type V = CronJobV;

    open spec fn view(&self) -> CronJobV {
        CronJobV {
            id: self.id@,
            cron: self.cron@,
            prompt: self.prompt@,
            recurring: self.recurring,
            durable: self.durable,
            pending_delivery: self.pending_delivery,
            last_fired: self.last_fired.deep_view(),
        }
    }
}

pub open spec fn jobs_view(s: Seq<CronJob>) -> Seq<CronJobV> {
    s.map_values(|j: CronJob| j@)
}

impl CronJob {
    /// A copy of the job.
    pub fn dup(&self) -> (r: CronJob)
        ensures
            r@ == self@,
    {
        let last_fired = match &self.last_fired {
            Some(t) => Some(t.clone()),
            None => None,
        };
        CronJob {
            id: self.id.clone(),
            cron: self.cron.clone(),
            prompt: self.prompt.clone(),
            recurring: self.recurring,
            durable: self.durable,
            pending_delivery: self.pending_delivery,
            last_fired,
        }
    }
}

/// Copies of the jobs.
pub fn dup_jobs(jobs: &[CronJob]) -> (r: Vec<CronJob>)
    ensures
        jobs_view(r@) == jobs_view(jobs@),
{
    let mut out: Vec<CronJob> = Vec::new();
    let mut i: usize = 0;
    while i < jobs.len()
        invariant
            i <= jobs@.len(),
            jobs_view(out@) == jobs_view(jobs@).take(i as int),
        decreases jobs@.len() - i,
    {
        let ghost before = jobs_view(out@);
        out.push(jobs[i].dup());
        assert(jobs_view(out@) =~= before.push(jobs@[i as int]@));
        assert(jobs_view(jobs@).take(i + 1) =~= before.push(jobs@[i as int]@));
        i += 1;
    }
    assert(jobs_view(jobs@).take(jobs@.len() as int) =~= jobs_view(jobs@));
    out
}

/// The ids of the jobs.
pub open spec fn ids(jobs: Seq<CronJobV>) -> Seq<Seq<char>> {
    jobs.map_values(|j: CronJobV| j.id)
}

/// No id occurs twice.
pub open spec fn distinct_ids(jobs: Seq<CronJobV>) -> bool {
    forall|i: int, j: int| 0 <= i < j < jobs.len() ==> (#[trigger] jobs[i]).id != (#[trigger] jobs[j]).id
}

/// The first job with the id.
pub open spec fn find_job(jobs: Seq<CronJobV>, id: Seq<char>) -> Option<CronJobV>
    decreases jobs.len(),
{
    if jobs.len() == 0 {
        None
    } else if jobs[0].id == id {
        Some(jobs[0])
    } else {
        find_job(jobs.skip(1), id)
    }
}

/// The jobs without those of the id.
pub open spec fn without(jobs: Seq<CronJobV>, id: Seq<char>) -> Seq<CronJobV>
    decreases jobs.len(),
{
    if jobs.len() == 0 {
        Seq::empty()
    } else {
        let rest = without(jobs.drop_last(), id);
        if jobs.last().id == id {
            rest
        } else {
            rest.push(jobs.last())
        }
    }
}

/// The jobs with `job` in place of the one of its id, or behind the others where there is none.
pub open spec fn put_job(jobs: Seq<CronJobV>, job: CronJobV) -> Seq<CronJobV> {
    if ids(jobs).contains(job.id) {
        jobs.map_values(|j: CronJobV| if j.id == job.id { job } else { j })
    } else {
        jobs.push(job)
    }
}

// ---- time ----

/// A minute of the local calendar.
#[derive(Clone, Copy, Debug)]
pub struct Moment {
    pub year: u32,
    pub month: u32,
    pub day: u32,
    pub hour: u32,
    pub minute: u32,
}

/// `n` in decimal notation, with zeros in front up to `width` digits.
pub open spec fn padded(n: nat, width: nat) -> Seq<char> {
    let digits = decimal(n);
    if digits.len() < width {
        Seq::new((width - digits.len()) as nat, |i: int| '0') + digits
    } else {
        digits
    }
}

fn padded_u32(n: u32, width: usize) -> (r: String)
    ensures
        r@ == padded(n as nat, width as nat),
{
    let digits = decimal_u64(n as u64);
    let cs = crate::text::chars_of(digits.as_str());
    let mut out = String::new();
    if cs.len() < width {
        let missing: usize = width - cs.len();
        let mut i: usize = 0;
        while i < missing
            invariant
                i <= missing,
                out@ == Seq::new(i as nat, |k: int| '0'),
            decreases missing - i,
        {
            out.push('0');
            i += 1;
            assert(out@ =~= Seq::new(i as nat, |k: int| '0'));
        }
    }
    let r = concat2(out.as_str(), digits.as_str());
    proof {
        if cs@.len() >= width {
            assert(r@ =~= digits@);
        }
    }
    r
}

/// The minute as `YYYY-MM-DD HH:MM`; a year of more than four digits has a plus sign.
pub open spec fn minute_text(m: Moment) -> Seq<char> {
    let year = if m.year <= 9999 {
        padded(m.year as nat, 4)
    } else {
        "+"@ + decimal(m.year as nat)
    };
    year + "-"@ + padded(m.month as nat, 2) + "-"@ + padded(m.day as nat, 2) + " "@ + padded(
        m.hour as nat,
        2,
    ) + ":"@ + padded(m.minute as nat, 2)
}

/// The minute as `YYYY-MM-DD HH:MM`; a year of more than four digits has a plus sign.
pub fn minute_marker(m: &Moment) -> (r: String)
    ensures
        r@ == minute_text(*m),
{
    let year = if m.year <= 9999 {
        padded_u32(m.year, 4)
    } else {
        concat2("+", decimal_u64(m.year as u64).as_str())
    };
    let date = concat3(
        concat3(year.as_str(), "-", padded_u32(m.month, 2).as_str()).as_str(),
        "-",
        padded_u32(m.day, 2).as_str(),
    );
    let hour = concat3(date.as_str(), " ", padded_u32(m.hour, 2).as_str());
    concat3(hour.as_str(), ":", padded_u32(m.minute, 2).as_str())
}

/// What `croner` says is wrong with a cron expression, if anything.
pub uninterp spec fn cron_parse_error(expr: Seq<char>) -> Option<Seq<char>>;

/// `croner::Cron::from_str`: the message of the error where the expression is not accepted. Whether
/// it is, and the message, depend on the expression alone.
#[verifier::external_body]
fn parse_failure(expr: &str) -> (r: Option<String>)
    ensures
        r.deep_view() == cron_parse_error(expr@),
{
    expr.parse::<croner::Cron>().err().map(|e| e.to_string())
}

/// Whether the schedule that `croner` reads from an expression holds the first second of a minute.
pub uninterp spec fn cron_hits(
    expr: Seq<char>,
    year: u32,
    month: u32,
    day: u32,
    hour: u32,
    minute: u32,
) -> bool;

/// `croner::Cron::is_time_matching` at the first second of the minute, on the calendar without a
/// time zone; an expression that is not accepted matches nothing, and nothing matches a date or time
/// that does not exist. The answer depends on the arguments alone.
#[verifier::external_body]
fn schedule_hits(expr: &str, m: &Moment) -> (r: bool)
    ensures
        r == cron_hits(expr@, m.year, m.month, m.day, m.hour, m.minute),
        cron_parse_error(expr@) is Some ==> !r,
{
    let time = i32::try_from(m.year)
        .ok()
        .and_then(|y| chrono::NaiveDate::from_ymd_opt(y, m.month, m.day))
        .and_then(|d| d.and_hms_opt(m.hour, m.minute, 0));
    match (expr.parse::<croner::Cron>(), time) {
        (Ok(schedule), Some(t)) => schedule.is_time_matching(&t).unwrap_or(false),
        _ => false,
    }
}

/// The cron expression matches the minute.
pub open spec fn matches_at(expr: Seq<char>, m: Moment) -> bool {
    cron_hits(expr, m.year, m.month, m.day, m.hour, m.minute)
}

/// Whether the cron expression matches the minute.
pub fn cron_matches(cron_expr: &str, moment: &Moment) -> (r: bool)
    ensures
        r == matches_at(cron_expr@, *moment),
        cron_parse_error(cron_expr@) is Some ==> !r,
{
    schedule_hits(cron_expr, moment)
}

/// What is wrong with a cron expression, if anything, where `parse` is what the parser says of it.
pub open spec fn cron_fault(expr: Seq<char>, parse: Option<Seq<char>>) -> Option<Seq<char>> {
    if words(expr).len() != 5 {
        Some("Expected 5 fields, got "@ + decimal(words(expr).len()))
    } else {
        parse
    }
}

/// Accepts a cron expression of five fields that the parser accepts.
pub fn validate_cron(cron_expr: &str) -> (r: Result<(), String>)
    ensures
        match r {
            Ok(_) => cron_fault(cron_expr@, cron_parse_error(cron_expr@)) is None,
            Err(e) => cron_fault(cron_expr@, cron_parse_error(cron_expr@)) == Some(e@),
        },
{
    let parsed = parse_failure(cron_expr);
    check_fields(cron_expr, parsed)
}

/// Accepts a cron expression of five fields that the parser has accepted.
pub fn check_fields(cron_expr: &str, parsed: Option<String>) -> (r: Result<(), String>)
    ensures
        match r {
            Ok(_) => cron_fault(cron_expr@, parsed.deep_view()) is None,
            Err(e) => cron_fault(cron_expr@, parsed.deep_view()) == Some(e@),
        },
{
    let fields = split_words(cron_expr);
    let n: usize = fields.len();
    assert(texts(fields@).len() == n);
    if n != 5 {
        return Err(concat2("Expected 5 fields, got ", decimal_usize(n).as_str()));
    }
    match parsed {
        Some(e) => Err(e),
        None => Ok(()),
    }
}

/// The first characters of a prompt, for a log line.
pub fn cron_prompt_preview(prompt: &str) -> (r: String)
    ensures
        r@ == first_chars(prompt@, 60),
{
    take_chars(prompt, 60)
}

// ---- manager ----

/// The state of the scheduler.
#[verifier::ext_equal]
pub struct CronV {
    /// The jobs. No two jobs of a manager have the same id: see [`CronManager::list`].
    pub jobs: Seq<CronJobV>,
    /// What waits for delivery.
    pub queue: Seq<CronJobV>,
    pub workdir: Seq<char>,
    /// A durable job has changed since the durable jobs were last written.
    pub unsaved: bool,
}

/// Cron task manager.
#[derive(Debug)]
pub struct CronManager {
    jobs: Vec<CronJob>,
    delivery_queue: Vec<CronJob>,
    workdir: String,
    unsaved: bool,
}

impl View for CronManager {
    type V = CronV;

    closed spec fn view(&self) -> CronV {
        CronV {
            jobs: jobs_view(self.jobs@),
            queue: jobs_view(self.delivery_queue@),
            workdir: self.workdir@,
            unsaved: self.unsaved,
        }
    }
}

/// The id that a random number gives.
pub open spec fn cron_id(n: u32) -> Seq<char> {
    "cron_"@ + hex_digits(n as nat, 8)
}

/// The first id, of those that the random numbers give, that no job has.
pub open spec fn first_free(jobs: Seq<CronJobV>, draws: Seq<u32>) -> Option<Seq<char>>
    decreases draws.len(),
{
    if draws.len() == 0 {
        None
    } else if !ids(jobs).contains(cron_id(draws[0])) {
        Some(cron_id(draws[0]))
    } else {
        first_free(jobs, draws.skip(1))
    }
}

/// What [`CronManager::schedule`] does where the random numbers are `draws`: the state after it, and
/// the new job or the reason why there is none.
pub open spec fn scheduled(
    state: CronV,
    cron: Seq<char>,
    prompt: Seq<char>,
    recurring: bool,
    durable: bool,
    fault: Option<Seq<char>>,
    draws: Seq<u32>,
) -> (CronV, Result<CronJobV, Seq<char>>) {
    if fault is Some {
        (state, Err(fault->0))
    } else if blank(prompt) {
        (state, Err("Prompt cannot be empty"@))
    } else {
        match first_free(state.jobs, draws) {
            None => (state, Err("Failed to allocate task id"@)),
            Some(id) => {
                let job = CronJobV {
                    id,
                    cron,
                    prompt,
                    recurring,
                    durable,
                    pending_delivery: false,
                    last_fired: None,
                };
                (
                    CronV {
                        jobs: put_job(state.jobs, job),
                        unsaved: state.unsaved || durable,
                        ..state
                    },
                    Ok(job),
                )
            },
        }
    }
}

/// The outcome of scheduling, by the views.
pub open spec fn outcome_view(r: Result<CronJob, String>) -> Result<CronJobV, Seq<char>> {
    match r {
        Ok(j) => Ok(j@),
        Err(e) => Err(e@),
    }
}

/// The job is due: it is not waiting, its expression matches, and it did not fire in this minute.
pub open spec fn due(j: CronJobV, now: Moment) -> bool {
    !j.pending_delivery && matches_at(j.cron, now) && j.last_fired != Some(minute_text(now))
}

/// The job as it is queued.
pub open spec fn fired(j: CronJobV, now: Moment) -> CronJobV {
    CronJobV { pending_delivery: true, last_fired: Some(minute_text(now)), ..j }
}

/// The job after the clock has been looked at.
pub open spec fn ticked(j: CronJobV, now: Moment) -> CronJobV {
    if due(j, now) {
        fired(j, now)
    } else {
        j
    }
}

/// The jobs after the clock has been looked at.
pub open spec fn ticked_jobs(jobs: Seq<CronJobV>, now: Moment) -> Seq<CronJobV> {
    jobs.map_values(|j: CronJobV| ticked(j, now))
}

/// What is queued of the jobs when the clock is looked at.
pub open spec fn fired_jobs(jobs: Seq<CronJobV>, now: Moment) -> Seq<CronJobV>
    decreases jobs.len(),
{
    if jobs.len() == 0 {
        Seq::empty()
    } else {
        let rest = fired_jobs(jobs.drop_last(), now);
        if due(jobs.last(), now) {
            rest.push(fired(jobs.last(), now))
        } else {
            rest
        }
    }
}

/// One of the jobs is durable.
pub open spec fn any_durable(jobs: Seq<CronJobV>) -> bool {
    exists|i: int| 0 <= i < jobs.len() && (#[trigger] jobs[i]).durable
}

/// The jobs after the delivery of those with the ids was acknowledged: a recurring one waits no
/// more, another one is gone.
pub open spec fn acknowledged(jobs: Seq<CronJobV>, delivered: Seq<Seq<char>>) -> Seq<CronJobV>
    decreases jobs.len(),
{
    if jobs.len() == 0 {
        Seq::empty()
    } else {
        let rest = acknowledged(jobs.drop_last(), delivered);
        let j = jobs.last();
        if !delivered.contains(j.id) {
            rest.push(j)
        } else if j.recurring {
            rest.push(CronJobV { pending_delivery: false, ..j })
        } else {
            rest
        }
    }
}

/// A durable job is among those with the ids.
pub open spec fn touches_durable(jobs: Seq<CronJobV>, delivered: Seq<Seq<char>>) -> bool {
    exists|i: int|
        0 <= i < jobs.len() && (#[trigger] jobs[i]).durable && delivered.contains(jobs[i].id)
}

/// The job waits again if it is one of those with the ids.
pub open spec fn waiting(j: CronJobV, delivered: Seq<Seq<char>>) -> CronJobV {
    if delivered.contains(j.id) {
        CronJobV { pending_delivery: true, ..j }
    } else {
        j
    }
}

/// The jobs after those with the ids were given back.
pub open spec fn waiting_jobs(jobs: Seq<CronJobV>, delivered: Seq<Seq<char>>) -> Seq<CronJobV> {
    jobs.map_values(|j: CronJobV| waiting(j, delivered))
}

/// What goes back into the queue for the jobs with the ids: those that are still there and are not
/// among the ids `queued`.
pub open spec fn requeued(
    jobs: Seq<CronJobV>,
    queued: Seq<Seq<char>>,
    delivered: Seq<Seq<char>>,
) -> Seq<CronJobV>
    decreases delivered.len(),
{
    if delivered.len() == 0 {
        Seq::empty()
    } else {
        let rest = requeued(jobs, queued, delivered.drop_last());
        match find_job(jobs, delivered.last()) {
            Some(j) => if queued.contains(delivered.last()) {
                rest
            } else {
                rest.push(CronJobV { pending_delivery: true, ..j })
            },
            None => rest,
        }
    }
}

/// What is wrong with a saved job, if anything.
pub open spec fn saved_fault(j: CronJobV) -> Option<Seq<char>> {
    match cron_fault(j.cron, cron_parse_error(j.cron)) {
        Some(e) => Some("  [cron] skipped invalid saved job: "@ + e),
        None => if !"cron_"@.is_prefix_of(j.id) {
            Some("  [cron] skipped invalid job ID: "@ + j.id)
        } else if blank(j.prompt) {
            Some("  [cron] skipped job with empty prompt: "@ + j.id)
        } else {
            None
        },
    }
}

/// What loading saved jobs does: the state after it, how many were taken, and what is said of the
/// others.
pub open spec fn loaded(state: CronV, payload: Seq<CronJobV>) -> (CronV, nat, Seq<Seq<char>>)
    decreases payload.len(),
{
    if payload.len() == 0 {
        (state, 0, Seq::empty())
    } else {
        let (before, n, notes) = loaded(state, payload.drop_last());
        let j = payload.last();
        match saved_fault(j) {
            Some(note) => (before, n, notes.push(note)),
            None => (
                CronV {
                    jobs: put_job(before.jobs, j),
                    queue: if j.pending_delivery {
                        before.queue.push(j)
                    } else {
                        before.queue
                    },
                    ..before
                },
                n + 1,
                notes,
            ),
        }
    }
}

/// The durable jobs.
pub open spec fn durable_jobs(jobs: Seq<CronJobV>) -> Seq<CronJobV>
    decreases jobs.len(),
{
    if jobs.len() == 0 {
        Seq::empty()
    } else {
        let rest = durable_jobs(jobs.drop_last());
        if jobs.last().durable {
            rest.push(jobs.last())
        } else {
            rest
        }
    }
}

fn position(jobs: &[CronJob], id: &str) -> (r: Option<usize>)
    ensures
        match r {
            Some(k) => k < jobs@.len() && jobs@[k as int].id@ == id@ && find_job(
                jobs_view(jobs@),
                id@,
            ) == Some(jobs@[k as int]@) && ids(jobs_view(jobs@)).contains(id@),
            None => find_job(jobs_view(jobs@), id@) is None && !ids(jobs_view(jobs@)).contains(id@),
        },
{
    let ghost all = jobs_view(jobs@);
    assert(all.skip(0) =~= all);
    let mut i: usize = 0;
    while i < jobs.len()
        invariant
            i <= jobs@.len(),
            all == jobs_view(jobs@),
            find_job(all, id@) == find_job(all.skip(i as int), id@),
            forall|k: int| 0 <= k < i ==> jobs@[k].id@ != id@,
        decreases jobs@.len() - i,
    {
        if str_eq(jobs[i].id.as_str(), id) {
            assert(ids(all)[i as int] == id@);
            return Some(i);
        }
        assert(all.skip(i as int).skip(1) =~= all.skip(i + 1));
        i += 1;
    }
    None
}

/// Whether one of the jobs has the id.
fn has_id(jobs: &[CronJob], id: &str) -> (r: bool)
    ensures
        r == ids(jobs_view(jobs@)).contains(id@),
{
    position(jobs, id).is_some()
}

fn insert_job(jobs: &mut Vec<CronJob>, job: CronJob)
    ensures
        jobs_view(final(jobs)@) == put_job(jobs_view(old(jobs)@), job@),
{
    let ghost before = jobs_view(jobs@);
    if !has_id(jobs.as_slice(), job.id.as_str()) {
        jobs.push(job);
        assert(jobs_view(jobs@) =~= before.push(job@));
        return;
    }
    let ghost goal = put_job(before, job@);
    let mut i: usize = 0;
    let n: usize = jobs.len();
    while i < n
        invariant
            i <= n,
            n == jobs@.len(),
            before.len() == n,
            goal == before.map_values(|j: CronJobV| if j.id == job@.id { job@ } else { j }),
            forall|k: int| 0 <= k < i ==> (#[trigger] jobs@[k])@ == goal[k],
            forall|k: int| i <= k < n ==> (#[trigger] jobs@[k])@ == before[k],
        decreases n - i,
    {
        if str_eq(jobs[i].id.as_str(), job.id.as_str()) {
            jobs.set(i, job.dup());
        }
        i += 1;
    }
    assert(jobs_view(jobs@) =~= goal);
}

fn drop_id(jobs: &[CronJob], id: &str) -> (r: Vec<CronJob>)
    ensures
        jobs_view(r@) == without(jobs_view(jobs@), id@),
{
    let ghost all = jobs_view(jobs@);
    let mut out: Vec<CronJob> = Vec::new();
    assert(jobs_view(out@) =~= Seq::empty());
    let mut i: usize = 0;
    while i < jobs.len()
        invariant
            i <= jobs@.len(),
            all == jobs_view(jobs@),
            jobs_view(out@) == without(all.take(i as int), id@),
        decreases jobs@.len() - i,
    {
        let ghost before = jobs_view(out@);
        assert(all.take(i + 1).drop_last() =~= all.take(i as int));
        assert(all.take(i + 1).last() == jobs@[i as int]@);
        if !str_eq(jobs[i].id.as_str(), id) {
            out.push(jobs[i].dup());
            assert(jobs_view(out@) =~= before.push(jobs@[i as int]@));
        }
        i += 1;
    }
    assert(all.take(jobs@.len() as int) =~= all);
    out
}

/// What a look at the clock has queued.
#[derive(Debug)]
pub struct TickReport {
    /// The jobs that were queued.
    pub fired: Vec<CronJob>,
    /// A line for each of them.
    pub lines: Vec<String>,
}

/// The line that tells of a queued job.
pub open spec fn due_line(j: CronJobV) -> Seq<char> {
    "  [cron] due "@ + j.id + ": "@ + first_chars(j.prompt, 60)
}

/// What loading saved jobs came to.
#[derive(Debug)]
pub struct LoadReport {
    /// How many jobs were taken.
    pub loaded: usize,
    /// What is said of the others.
    pub notes: Vec<String>,
}

impl CronManager {
    #[verifier::type_invariant]
    spec fn ids_apart(self) -> bool {
        distinct_ids(jobs_view(self.jobs@))
    }

    /// A scheduler without jobs for the directory.
    pub fn new(workdir: &str) -> (r: Self)
        ensures
            r@ == (CronV {
                jobs: Seq::empty(),
                queue: Seq::empty(),
                workdir: workdir@,
                unsaved: false,
            }),
    {
        let r = CronManager {
            jobs: Vec::new(),
            delivery_queue: Vec::new(),
            workdir: owned(workdir),
            unsaved: false,
        };
        assert(r@.jobs =~= Seq::empty());
        assert(r@.queue =~= Seq::empty());
        r
    }

    /// A scheduler for an agent that delivers nothing.
    pub fn noop() -> (r: Self)
        ensures
            r@ == (CronV {
                jobs: Seq::empty(),
                queue: Seq::empty(),
                workdir: ""@,
                unsaved: false,
            }),
    {
        CronManager::new("")
    }

    /// The working directory.
    pub fn workdir(&self) -> (r: &str)
        ensures
            r@ == self@.workdir,
    {
        self.workdir.as_str()
    }

    /// The first id, of those that the random numbers give, that no job has.
    pub fn generate_id(&self, draws: &[u32]) -> (r: Option<String>)
        ensures
            r.deep_view() == first_free(self@.jobs, draws@),
    {
        assert(draws@.skip(0) =~= draws@);
        let mut i: usize = 0;
        while i < draws.len()
            invariant
                i <= draws@.len(),
                first_free(self@.jobs, draws@) == first_free(self@.jobs, draws@.skip(i as int)),
            decreases draws@.len() - i,
        {
            let id = concat2("cron_", hex8(draws[i]).as_str());
            if !has_id(self.jobs.as_slice(), id.as_str()) {
                return Some(id);
            }
            assert(draws@.skip(i as int).skip(1) =~= draws@.skip(i + 1));
            i += 1;
        }
        None
    }

    /// Schedules a prompt under the first free id of those that the random numbers give.
    pub fn schedule_with(
        &mut self,
        cron: &str,
        prompt: &str,
        recurring: bool,
        durable: bool,
        fault: Option<String>,
        draws: &[u32],
    ) -> (r: Result<CronJob, String>)
        ensures
            scheduled(
                old(self)@,
                cron@,
                prompt@,
                recurring,
                durable,
                fault.deep_view(),
                draws@,
            ) == (final(self)@, outcome_view(r)),
    {
        match fault {
            Some(e) => {
                return Err(e);
            },
            None => {},
        }
        if is_blank(prompt) {
            return Err(owned("Prompt cannot be empty"));
        }
        match self.generate_id(draws) {
            None => Err(owned("Failed to allocate task id")),
            Some(id) => {
                let job = CronJob {
                    id,
                    cron: owned(cron),
                    prompt: owned(prompt),
                    recurring,
                    durable,
                    pending_delivery: false,
                    last_fired: None,
                };
                proof {
                    use_type_invariant(&*self);
                    lemma_put_keeps_apart(self@.jobs, job@);
                }
                let mut jobs: Vec<CronJob> = Vec::new();
                std::mem::swap(&mut jobs, &mut self.jobs);
                insert_job(&mut jobs, job.dup());
                self.jobs = jobs;
                self.unsaved = self.unsaved || durable;
                Ok(job)
            },
        }
    }

    /// Schedules a prompt. The new job has a random id that no other job has; that none was found in
    /// so many tries is reported.
    pub fn schedule(&mut self, cron: &str, prompt: &str, recurring: bool, durable: bool) -> (r:
        Result<CronJob, String>)
        ensures
            exists|draws: Seq<u32>|
                draws.len() == MAX_ID_RETRIES && #[trigger] scheduled(
                    old(self)@,
                    cron@,
                    prompt@,
                    recurring,
                    durable,
                    cron_fault(cron@, cron_parse_error(cron@)),
                    draws,
                ) == (final(self)@, outcome_view(r)),
            cron_fault(cron@, cron_parse_error(cron@)) is None && !blank(prompt@)
                && old(self)@.jobs.len() == 0 ==> r is Ok,
    {
        let draws = random_draws(MAX_ID_RETRIES);
        let fault = match validate_cron(cron) {
            Ok(_) => None,
            Err(e) => Some(e),
        };
        let ghost start = self@;
        let r = self.schedule_with(cron, prompt, recurring, durable, fault, draws.as_slice());
        assert(scheduled(
            start,
            cron@,
            prompt@,
            recurring,
            durable,
            cron_fault(cron@, cron_parse_error(cron@)),
            draws@,
        ) == (self@, outcome_view(r)));
        assert(start.jobs.len() == 0 ==> !ids(start.jobs).contains(cron_id(draws@[0])));
        r
    }

    /// Cancels a job, also where it waits for delivery.
    pub fn cancel(&mut self, job_id: &str) -> (r: Result<String, String>)
        ensures
            match find_job(old(self)@.jobs, job_id@) {
                None => r matches Err(e) && e@ == "Job "@ + job_id@ + " not found"@ && final(self)@
                    == old(self)@,
                Some(j) => r matches Ok(m) && m@ == "Cancelled "@ + job_id@ && final(self)@ == (CronV {
                    jobs: without(old(self)@.jobs, job_id@),
                    queue: without(old(self)@.queue, job_id@),
                    unsaved: old(self)@.unsaved || j.durable,
                    ..old(self)@
                }),
            },
            r is Ok <==> ids(old(self)@.jobs).contains(job_id@),
            selects(old(self)@.jobs, final(self)@.jobs, not_named(job_id@), the_job()),
            r is Ok ==> selects(
                old(self)@.queue,
                final(self)@.queue,
                not_named(job_id@),
                the_job(),
            ),
    {
        proof {
            lemma_cancel_takes_one(self@.jobs, job_id@);
            lemma_cancel_takes_one(self@.queue, job_id@);
            lemma_find_job(self@.jobs, job_id@);
            lemma_cancel_unknown(self@.jobs, job_id@);
        }
        match position(self.jobs.as_slice(), job_id) {
            None => Err(concat3("Job ", job_id, " not found")),
            Some(k) => {
                proof {
                    use_type_invariant(&*self);
                    lemma_without_elements(self@.jobs, job_id@);
                }
                let durable = self.jobs[k].durable;
                self.delivery_queue = drop_id(self.delivery_queue.as_slice(), job_id);
                self.jobs = drop_id(self.jobs.as_slice(), job_id);
                self.unsaved = self.unsaved || durable;
                Ok(concat2("Cancelled ", job_id))
            },
        }
    }

    /// All jobs, no two with the same id.
    pub fn list(&self) -> (r: Vec<CronJob>)
        ensures
            jobs_view(r@) == self@.jobs,
            distinct_ids(jobs_view(r@)),
    {
        proof {
            use_type_invariant(&*self);
        }
        dup_jobs(self.jobs.as_slice())
    }

    /// Whether a durable job has changed since the durable jobs were last written.
    pub fn unsaved(&self) -> (r: bool)
        ensures
            r == self@.unsaved,
    {
        self.unsaved
    }

    /// The jobs that belong on disk, to be written to [`CronManager::durable_path`]. Once they are,
    /// [`CronManager::mark_saved`] takes note of it.
    pub fn save_durable(&self) -> (r: Vec<CronJob>)
        ensures
            jobs_view(r@) == durable_jobs(self@.jobs),
    {
        let ghost all = jobs_view(self.jobs@);
        let mut out: Vec<CronJob> = Vec::new();
        assert(jobs_view(out@) =~= Seq::empty());
        let mut i: usize = 0;
        while i < self.jobs.len()
            invariant
                i <= self.jobs@.len(),
                all == jobs_view(self.jobs@),
                jobs_view(out@) == durable_jobs(all.take(i as int)),
            decreases self.jobs@.len() - i,
        {
            let ghost before = jobs_view(out@);
            assert(all.take(i + 1).drop_last() =~= all.take(i as int));
            assert(all.take(i + 1).last() == self.jobs@[i as int]@);
            if self.jobs[i].durable {
                out.push(self.jobs[i].dup());
                assert(jobs_view(out@) =~= before.push(self.jobs@[i as int]@));
            }
            i += 1;
        }
        assert(all.take(self.jobs@.len() as int) =~= all);
        out
    }

    /// The durable jobs are on disk as they are now.
    pub fn mark_saved(&mut self)
        ensures
            final(self)@ == (CronV { unsaved: false, ..old(self)@ }),
    {
        proof {
            use_type_invariant(&*self);
        }
        self.unsaved = false;
    }

    /// The file of the durable jobs.
    pub fn durable_path(&self) -> (r: String)
        ensures
            r@ == path_in(self@.workdir, DURABLE_FILE@),
    {
        join_path(self.workdir.as_str(), DURABLE_FILE)
    }

    /// The file that a process writes before it takes the place of the file of the durable jobs.
    pub fn durable_temp_path(&self, pid: u32) -> (r: String)
        ensures
            r@ == path_in(self@.workdir, ".scheduled_tasks.tmp."@ + decimal(pid as nat)),
    {
        let name = concat2(".scheduled_tasks.tmp.", decimal_u64(pid as u64).as_str());
        join_path(self.workdir.as_str(), name.as_str())
    }

    /// Takes over saved jobs: those whose expression, id or prompt will not do are left out, and
    /// those that were waiting go into the queue.
    pub fn load_durable(&mut self, payload: &[CronJob]) -> (r: LoadReport)
        ensures
            loaded(old(self)@, jobs_view(payload@)) == (
                final(self)@,
                r.loaded as nat,
                texts(r.notes@),
            ),
    {
        proof {
            use_type_invariant(&*self);
        }
        let ghost start = self@;
        let ghost all = jobs_view(payload@);
        let mut jobs: Vec<CronJob> = Vec::new();
        let mut queue: Vec<CronJob> = Vec::new();
        std::mem::swap(&mut jobs, &mut self.jobs);
        std::mem::swap(&mut queue, &mut self.delivery_queue);
        let mut count: usize = 0;
        let mut notes: Vec<String> = Vec::new();
        assert(texts(notes@) =~= Seq::empty());
        let mut i: usize = 0;
        while i < payload.len()
            invariant
                i <= payload@.len(),
                all == jobs_view(payload@),
                count <= i,
                distinct_ids(jobs_view(jobs@)),
                loaded(start, all.take(i as int)) == (
                    CronV { jobs: jobs_view(jobs@), queue: jobs_view(queue@), ..start },
                    count as nat,
                    texts(notes@),
                ),
            decreases payload@.len() - i,
        {
            let job = &payload[i];
            let ghost known = jobs_view(queue@);
            let ghost said = texts(notes@);
            assert(all.take(i + 1).drop_last() =~= all.take(i as int));
            assert(all.take(i + 1).last() == job@);
            let note = match validate_cron(job.cron.as_str()) {
                Err(e) => Some(concat2("  [cron] skipped invalid saved job: ", e.as_str())),
                Ok(_) => if !str_starts_with(job.id.as_str(), "cron_") {
                    Some(concat2("  [cron] skipped invalid job ID: ", job.id.as_str()))
                } else if is_blank(job.prompt.as_str()) {
                    Some(concat2("  [cron] skipped job with empty prompt: ", job.id.as_str()))
                } else {
                    None
                },
            };
            match note {
                Some(note) => {
                    notes.push(note);
                    assert(texts(notes@) =~= said.push(note@));
                },
                None => {
                    proof {
                        lemma_put_keeps_apart(jobs_view(jobs@), job@);
                    }
                    insert_job(&mut jobs, job.dup());
                    if job.pending_delivery {
                        queue.push(job.dup());
                        assert(jobs_view(queue@) =~= known.push(job@));
                    }
                    count += 1;
                },
            }
            i += 1;
        }
        assert(all.take(payload@.len() as int) =~= all);
        self.jobs = jobs;
        self.delivery_queue = queue;
        LoadReport { loaded: count, notes }
    }

    /// Takes everything out of the delivery queue.
    pub fn consume_queue(&mut self) -> (r: Vec<CronJob>)
        ensures
            jobs_view(r@) == old(self)@.queue,
            final(self)@ == (CronV { queue: Seq::empty(), ..old(self)@ }),
    {
        proof {
            use_type_invariant(&*self);
        }
        let mut queue: Vec<CronJob> = Vec::new();
        std::mem::swap(&mut queue, &mut self.delivery_queue);
        assert(self@.queue =~= Seq::empty());
        queue
    }

    /// Acknowledges delivered jobs: a recurring job waits no more, a one-shot job is removed.
    pub fn acknowledge_jobs(&mut self, jobs: &[CronJob])
        ensures
            final(self)@ == (CronV {
                jobs: acknowledged(old(self)@.jobs, ids(jobs_view(jobs@))),
                unsaved: old(self)@.unsaved || touches_durable(
                    old(self)@.jobs,
                    ids(jobs_view(jobs@)),
                ),
                ..old(self)@
            }),
            selects(
                old(self)@.jobs,
                final(self)@.jobs,
                stays_after(ids(jobs_view(jobs@))),
                after_delivery(ids(jobs_view(jobs@))),
            ),
            final(self)@.queue == old(self)@.queue,
    {
        proof {
            lemma_delivery_settles(self@.jobs, ids(jobs_view(jobs@)));
        }
        let ghost all = jobs_view(self.jobs@);
        let ghost delivered = ids(jobs_view(jobs@));
        let mut kept: Vec<CronJob> = Vec::new();
        assert(jobs_view(kept@) =~= Seq::empty());
        let mut durable = false;
        let mut i: usize = 0;
        while i < self.jobs.len()
            invariant
                i <= self.jobs@.len(),
                all == jobs_view(self.jobs@),
                delivered == ids(jobs_view(jobs@)),
                *self == *old(self),
                jobs_view(kept@) == acknowledged(all.take(i as int), delivered),
                durable == touches_durable(all.take(i as int), delivered),
            decreases self.jobs@.len() - i,
        {
            let job = &self.jobs[i];
            let ghost before = jobs_view(kept@);
            let ghost done = all.take(i as int);
            let ghost now = all.take(i + 1);
            assert(now.drop_last() =~= done);
            assert(now.last() == job@);
            let mut copy = job.dup();
            if has_id(jobs, job.id.as_str()) {
                proof {
                    if job.durable {
                        assert(now[i as int].durable);
                    }
                    assert forall|k: int| 0 <= k < i implies now[k] == done[k] by {}
                    if durable {
                        let k = choose|k: int|
                            0 <= k < done.len() && (#[trigger] done[k]).durable
                                && delivered.contains(done[k].id);
                        assert(now[k].durable);
                    }
                    if touches_durable(now, delivered) && !job.durable {
                        let k = choose|k: int|
                            0 <= k < now.len() && (#[trigger] now[k]).durable
                                && delivered.contains(now[k].id);
                        assert(done[k].durable);
                    }
                }
                durable = durable || job.durable;
                if job.recurring {
                    copy.pending_delivery = false;
                    kept.push(copy);
                    assert(jobs_view(kept@) =~= before.push(
                        CronJobV { pending_delivery: false, ..job@ },
                    ));
                }
            } else {
                proof {
                    if durable {
                        let k = choose|k: int|
                            0 <= k < done.len() && (#[trigger] done[k]).durable
                                && delivered.contains(done[k].id);
                        assert(now[k].durable);
                    }
                    if touches_durable(now, delivered) {
                        let k = choose|k: int|
                            0 <= k < now.len() && (#[trigger] now[k]).durable
                                && delivered.contains(now[k].id);
                        assert(done[k].durable);
                    }
                }
                kept.push(copy);
                assert(jobs_view(kept@) =~= before.push(job@));
            }
            i += 1;
        }
        assert(all.take(self.jobs@.len() as int) =~= all);
        proof {
            use_type_invariant(&*self);
            lemma_acknowledged(all, delivered);
        }
        self.jobs = kept;
        self.unsaved = self.unsaved || durable;
    }

    /// Gives undelivered jobs back: those that are still there wait again, and go into the queue
    /// where they are not in it.
    pub fn restore_jobs(&mut self, jobs: &[CronJob])
        ensures
            final(self)@ == (CronV {
                jobs: waiting_jobs(old(self)@.jobs, ids(jobs_view(jobs@))),
                queue: old(self)@.queue + requeued(
                    old(self)@.jobs,
                    ids(old(self)@.queue),
                    ids(jobs_view(jobs@)),
                ),
                ..old(self)@
            }),
            old(self)@.queue.is_prefix_of(final(self)@.queue),
            selects(
                ids(jobs_view(jobs@)),
                final(self)@.queue.skip(old(self)@.queue.len() as int),
                to_requeue(old(self)@.jobs, ids(old(self)@.queue)),
                waiting_again(old(self)@.jobs),
            ),
            final(self)@.jobs.len() == old(self)@.jobs.len(),
    {
        proof {
            let q = self@.queue;
            let b = requeued(self@.jobs, ids(q), ids(jobs_view(jobs@)));
            lemma_undelivered_is_queued(self@.jobs, ids(q), ids(jobs_view(jobs@)));
            assert((q + b).skip(q.len() as int) =~= b);
            assert((q + b).take(q.len() as int) =~= q);
        }
        let ghost all = jobs_view(self.jobs@);
        let ghost queue = jobs_view(self.delivery_queue@);
        let ghost delivered = ids(jobs_view(jobs@));
        let mut back: Vec<CronJob> = Vec::new();
        assert(jobs_view(back@) =~= Seq::empty());
        let mut i: usize = 0;
        while i < jobs.len()
            invariant
                i <= jobs@.len(),
                all == jobs_view(self.jobs@),
                queue == jobs_view(self.delivery_queue@),
                delivered == ids(jobs_view(jobs@)),
                *self == *old(self),
                jobs_view(back@) == requeued(all, ids(queue), delivered.take(i as int)),
            decreases jobs@.len() - i,
        {
            let ghost before = jobs_view(back@);
            let id = jobs[i].id.as_str();
            assert(delivered.take(i + 1).drop_last() =~= delivered.take(i as int));
            assert(delivered.take(i + 1).last() == id@);
            match position(self.jobs.as_slice(), id) {
                Some(k) => {
                    if !has_id(self.delivery_queue.as_slice(), id) {
                        let mut copy = self.jobs[k].dup();
                        copy.pending_delivery = true;
                        back.push(copy);
                        assert(jobs_view(back@) =~= before.push(
                            CronJobV { pending_delivery: true, ..self.jobs@[k as int]@ },
                        ));
                    }
                },
                None => {},
            }
            i += 1;
        }
        assert(delivered.take(jobs@.len() as int) =~= delivered);
        proof {
            use_type_invariant(&*self);
            lemma_marks_keep_apart(all, waiting_jobs(all, delivered));
        }
        let mut kept: Vec<CronJob> = Vec::new();
        std::mem::swap(&mut kept, &mut self.jobs);
        let n: usize = kept.len();
        let ghost goal = waiting_jobs(all, delivered);
        let mut j: usize = 0;
        while j < n
            invariant
                j <= n,
                n == kept@.len(),
                all.len() == n,
                delivered == ids(jobs_view(jobs@)),
                goal == waiting_jobs(all, delivered),
                forall|k: int| 0 <= k < j ==> (#[trigger] kept@[k])@ == goal[k],
                forall|k: int| j <= k < n ==> (#[trigger] kept@[k])@ == all[k],
            decreases n - j,
        {
            if has_id(jobs, kept[j].id.as_str()) {
                let mut copy = kept[j].dup();
                copy.pending_delivery = true;
                kept.set(j, copy);
            }
            j += 1;
        }
        assert(jobs_view(kept@) =~= goal);
        self.jobs = kept;
        let ghost added = jobs_view(back@);
        let ghost b0 = back@;
        let mut waiting: Vec<CronJob> = Vec::new();
        std::mem::swap(&mut waiting, &mut self.delivery_queue);
        let ghost q0 = waiting@;
        waiting.append(&mut back);
        assert(waiting@ =~= q0 + b0);
        assert(jobs_view(waiting@) =~= queue + added);
        self.delivery_queue = waiting;
    }

    /// Whether jobs wait for delivery.
    pub fn has_queue(&self) -> (r: bool)
        ensures
            r == (self@.queue.len() > 0),
    {
        self.delivery_queue.len() > 0
    }

    /// Looks at the clock: the jobs that are due are marked and queued.
    pub fn tick(&mut self, now: &Moment) -> (r: TickReport)
        ensures
            jobs_view(r.fired@) == fired_jobs(old(self)@.jobs, *now),
            texts(r.lines@) == fired_jobs(old(self)@.jobs, *now).map_values(
                |j: CronJobV| due_line(j),
            ),
            final(self)@ == (CronV {
                jobs: ticked_jobs(old(self)@.jobs, *now),
                queue: old(self)@.queue + fired_jobs(old(self)@.jobs, *now),
                unsaved: old(self)@.unsaved || any_durable(fired_jobs(old(self)@.jobs, *now)),
                ..old(self)@
            }),
            selects(old(self)@.jobs, jobs_view(r.fired@), comes_due(*now), having_fired(*now)),
            old(self)@.queue.is_prefix_of(final(self)@.queue),
            final(self)@.queue.skip(old(self)@.queue.len() as int) == jobs_view(r.fired@),
            final(self)@.jobs.len() == old(self)@.jobs.len(),
            r.lines@.len() == r.fired@.len(),
    {
        proof {
            lemma_tick_fires_the_due(self@.jobs, *now);
            let q = self@.queue;
            let f = fired_jobs(self@.jobs, *now);
            assert((q + f).skip(q.len() as int) =~= f);
            assert((q + f).take(q.len() as int) =~= q);
            use_type_invariant(&*self);
            lemma_marks_keep_apart(self@.jobs, ticked_jobs(self@.jobs, *now));
        }
        let marker = minute_marker(now);
        let ghost all = jobs_view(self.jobs@);
        let ghost queue = jobs_view(self.delivery_queue@);
        let ghost goal = ticked_jobs(all, *now);
        let mut out: Vec<CronJob> = Vec::new();
        let mut told: Vec<String> = Vec::new();
        let mut durable = false;
        assert(jobs_view(out@) =~= Seq::empty());
        assert(texts(told@) =~= jobs_view(out@).map_values(|j: CronJobV| due_line(j)));
        let mut jobs: Vec<CronJob> = Vec::new();
        let mut waiting: Vec<CronJob> = Vec::new();
        std::mem::swap(&mut jobs, &mut self.jobs);
        std::mem::swap(&mut waiting, &mut self.delivery_queue);
        assert(jobs_view(waiting@) =~= queue + jobs_view(out@));
        let n: usize = jobs.len();
        let mut i: usize = 0;
        while i < n
            invariant
                i <= n,
                n == jobs@.len(),
                all.len() == n,
                goal == ticked_jobs(all, *now),
                marker@ == minute_text(*now),
                jobs_view(out@) == fired_jobs(all.take(i as int), *now),
                texts(told@) == jobs_view(out@).map_values(|j: CronJobV| due_line(j)),
                durable == any_durable(jobs_view(out@)),
                jobs_view(waiting@) == queue + jobs_view(out@),
                forall|k: int| 0 <= k < i ==> (#[trigger] jobs@[k])@ == goal[k],
                forall|k: int| i <= k < n ==> (#[trigger] jobs@[k])@ == all[k],
            decreases n - i,
        {
            let ghost before = jobs_view(out@);
            let ghost lines0 = texts(told@);
            let ghost queue0 = jobs_view(waiting@);
            let ghost job = all[i as int];
            assert(jobs@[i as int]@ == job);
            assert(all.take(i + 1).drop_last() =~= all.take(i as int));
            assert(all.take(i + 1).last() == job);
            let fresh = match &jobs[i].last_fired {
                Some(t) => !str_eq(t.as_str(), marker.as_str()),
                None => true,
            };
            if !jobs[i].pending_delivery && cron_matches(jobs[i].cron.as_str(), now)
                && fresh {
                let mut copy = jobs[i].dup();
                copy.pending_delivery = true;
                copy.last_fired = Some(marker.clone());
                assert(copy@ == fired(job, *now));
                let line = concat3(
                    concat2("  [cron] due ", copy.id.as_str()).as_str(),
                    ": ",
                    cron_prompt_preview(copy.prompt.as_str()).as_str(),
                );
                told.push(line);
                durable = durable || copy.durable;
                waiting.push(copy.dup());
                jobs.set(i, copy.dup());
                out.push(copy);
                let ghost now_out = jobs_view(out@);
                assert(now_out =~= before.push(fired(job, *now)));
                assert(texts(told@) =~= lines0.push(due_line(fired(job, *now))));
                assert(texts(told@) =~= now_out.map_values(|j: CronJobV| due_line(j)));
                assert(jobs_view(waiting@) =~= queue0.push(fired(job, *now)));
                assert(jobs_view(waiting@) =~= queue + now_out);
                proof {
                    if any_durable(before) {
                        let k = choose|k: int| 0 <= k < before.len() && (#[trigger] before[k]).durable;
                        assert(now_out[k].durable);
                    }
                    if job.durable {
                        assert(now_out[before.len() as int].durable);
                    }
                    if any_durable(now_out) && !job.durable {
                        let k = choose|k: int|
                            0 <= k < now_out.len() && (#[trigger] now_out[k]).durable;
                        assert(before[k].durable);
                    }
                }
            }
            i += 1;
        }
        assert(all.take(n as int) =~= all);
        assert(jobs_view(jobs@) =~= goal);
        self.jobs = jobs;
        self.delivery_queue = waiting;
        self.unsaved = self.unsaved || durable;
        TickReport { fired: out, lines: told }
    }
}

// ---- tools ----

/// What a cron tool answers to an agent without a scheduler.
pub const CRON_UNAVAILABLE: &'static str = "Error: cron not available in subagent";

/// The text of an input field, empty where there is none.
pub open spec fn input_text(input: JsonV, key: Seq<char>) -> Seq<char> {
    match text_field(input, key) {
        Some(t) => t,
        None => Seq::empty(),
    }
}

/// The boolean of an input field, true where there is none.
pub open spec fn input_flag(input: JsonV, key: Seq<char>) -> bool {
    match field(input, key) {
        Some(v) => match bool_of(v) {
            Some(b) => b,
            None => true,
        },
        None => true,
    }
}

/// The text of an input field, empty where there is none.
pub fn text_input(input: &Json, key: &str) -> (r: String)
    ensures
        r@ == input_text(input@, key@),
{
    match input.str_field(key) {
        Some(t) => owned(t),
        None => String::new(),
    }
}

fn flag_input(input: &Json, key: &str) -> (r: bool)
    ensures
        r == input_flag(input@, key@),
{
    match input.get(key) {
        Some(v) => match v.as_bool() {
            Some(b) => b,
            None => true,
        },
        None => true,
    }
}

/// Schedules a prompt.
pub struct ScheduleCronTool;

/// Lists the scheduled prompts.
pub struct ListCronsTool;

/// Cancels a scheduled prompt.
pub struct CancelCronTool;

/// What the model is told of the outcome of scheduling.
pub open spec fn schedule_reply(outcome: Result<CronJobV, Seq<char>>) -> Seq<char> {
    match outcome {
        Ok(j) => "Scheduled "@ + j.id + ": "@ + j.cron + " -> "@ + j.prompt,
        Err(e) => "Error: "@ + e,
    }
}

impl ScheduleCronTool {
    pub fn name(&self) -> (r: &'static str)
        ensures
            r@ == "schedule_cron"@,
    {
        "schedule_cron"
    }

    pub fn description(&self) -> (r: &'static str)
        ensures
            r@ == "Schedule a prompt with a 5-field cron expression."@,
    {
        "Schedule a prompt with a 5-field cron expression."
    }

    pub fn input_schema(&self) -> (r: Json)
        ensures
            r@ == schema_v(
                seq![
                    ("cron"@, typed_v("string"@)),
                    ("prompt"@, typed_v("string"@)),
                    ("recurring"@, flag_v(true)),
                    ("durable"@, flag_v(true)),
                ],
                seq![JsonV::Text("cron"@), JsonV::Text("prompt"@)],
            ),
    {
        let mut properties: Vec<(String, Json)> = Vec::new();
        put(&mut properties, "cron", typed("string"));
        put(&mut properties, "prompt", typed("string"));
        put(&mut properties, "recurring", flag(true));
        put(&mut properties, "durable", flag(true));
        let mut required: Vec<Json> = Vec::new();
        put_text(&mut required, "cron");
        put_text(&mut required, "prompt");
        assert(fields_view(properties@) =~= seq![
            ("cron"@, typed_v("string"@)),
            ("prompt"@, typed_v("string"@)),
            ("recurring"@, flag_v(true)),
            ("durable"@, flag_v(true)),
        ]);
        assert(list_view(required@) =~= seq![JsonV::Text("cron"@), JsonV::Text("prompt"@)]);
        schema(properties, required)
    }

    /// What the model is told of the outcome of scheduling.
    pub fn reply(&self, outcome: Result<CronJob, String>) -> (r: String)
        ensures
            r@ == schedule_reply(outcome_view(outcome)),
    {
        match outcome {
            Ok(job) => {
                let head = concat3("Scheduled ", job.id.as_str(), ": ");
                let middle = concat3(head.as_str(), job.cron.as_str(), " -> ");
                concat2(middle.as_str(), job.prompt.as_str())
            },
            Err(e) => concat2("Error: ", e.as_str()),
        }
    }

    /// Schedules the prompt of the input.
    pub fn execute(&self, manager: &mut CronManager, input: &Json) -> (r: String)
        ensures
            exists|draws: Seq<u32>|
                draws.len() == MAX_ID_RETRIES && (#[trigger] scheduled(
                    old(manager)@,
                    input_text(input@, "cron"@),
                    input_text(input@, "prompt"@),
                    input_flag(input@, "recurring"@),
                    input_flag(input@, "durable"@),
                    cron_fault(
                        input_text(input@, "cron"@),
                        cron_parse_error(input_text(input@, "cron"@)),
                    ),
                    draws,
                )).0 == final(manager)@ && r@ == schedule_reply(
                    scheduled(
                        old(manager)@,
                        input_text(input@, "cron"@),
                        input_text(input@, "prompt"@),
                        input_flag(input@, "recurring"@),
                        input_flag(input@, "durable"@),
                        cron_fault(
                            input_text(input@, "cron"@),
                            cron_parse_error(input_text(input@, "cron"@)),
                        ),
                        draws,
                    ).1,
                ),
    {
        let cron = text_input(input, "cron");
        let prompt = text_input(input, "prompt");
        let recurring = flag_input(input, "recurring");
        let durable = flag_input(input, "durable");
        let outcome = manager.schedule(cron.as_str(), prompt.as_str(), recurring, durable);
        self.reply(outcome)
    }

    /// What the tool says of a call before it runs: every call may run.
    pub fn check_permission(&self, _input: &Json) -> (r: PermissionCheck)
        ensures
            r is Pass,
    {
        PermissionCheck::Pass
    }

    /// Teammates do not schedule.
    pub fn available_for(&self, kind: AgentKind) -> (r: bool)
        ensures
            r == (kind != AgentKind::Teammate),
    {
        kind != AgentKind::Teammate
    }
}

/// The line that lists a job.
pub open spec fn listed(j: CronJobV) -> Seq<char> {
    j.id + ": "@ + j.cron + " -> "@ + first_chars(j.prompt, 60) + " ["@ + (if j.recurring {
        "recurring"@
    } else {
        "one-shot"@
    }) + ", "@ + (if j.durable {
        "durable"@
    } else {
        "session"@
    }) + "]"@
}

fn list_line(job: &CronJob) -> (r: String)
    ensures
        r@ == listed(job@),
{
    let frequency = if job.recurring {
        "recurring"
    } else {
        "one-shot"
    };
    let storage = if job.durable {
        "durable"
    } else {
        "session"
    };
    let head = concat3(job.id.as_str(), ": ", job.cron.as_str());
    let preview = cron_prompt_preview(job.prompt.as_str());
    let line = concat3(head.as_str(), " -> ", preview.as_str());
    let tagged = concat3(line.as_str(), " [", frequency);
    concat2(concat3(tagged.as_str(), ", ", storage).as_str(), "]")
}

impl ListCronsTool {
    pub fn name(&self) -> (r: &'static str)
        ensures
            r@ == "list_crons"@,
    {
        "list_crons"
    }

    pub fn description(&self) -> (r: &'static str)
        ensures
            r@ == "List scheduled cron jobs."@,
    {
        "List scheduled cron jobs."
    }

    pub fn input_schema(&self) -> (r: Json)
        ensures
            r@ == schema_v(Seq::empty(), Seq::empty()),
    {
        schema(Vec::new(), Vec::new())
    }

    /// A line for each job.
    pub fn execute(&self, manager: &CronManager) -> (r: String)
        ensures
            r@ == if manager@.jobs.len() == 0 {
                "No cron jobs."@
            } else {
                join(manager@.jobs.map_values(|j: CronJobV| listed(j)), "\n"@)
            },
            manager@.jobs.len() > 0 ==> holds(
                r@,
                manager@.jobs.map_values(|j: CronJobV| listed(j)),
            ),
    {
        proof {
            lemma_holds_joined(manager@.jobs.map_values(|j: CronJobV| listed(j)), "\n"@);
        }
        let n: usize = manager.jobs.len();
        if n == 0 {
            return owned("No cron jobs.");
        }
        let ghost goal = manager@.jobs.map_values(|j: CronJobV| listed(j));
        let mut out: Vec<String> = Vec::new();
        let mut i: usize = 0;
        while i < n
            invariant
                i <= n,
                n == manager.jobs@.len(),
                goal == manager@.jobs.map_values(|j: CronJobV| listed(j)),
                texts(out@) == goal.take(i as int),
            decreases n - i,
        {
            let ghost before = texts(out@);
            out.push(list_line(&manager.jobs[i]));
            assert(texts(out@) =~= before.push(goal[i as int]));
            assert(goal.take(i + 1) =~= before.push(goal[i as int]));
            i += 1;
        }
        assert(goal.take(n as int) =~= goal);
        joined(out.as_slice(), "\n")
    }

    /// What the tool says of a call before it runs: every call may run.
    pub fn check_permission(&self, _input: &Json) -> (r: PermissionCheck)
        ensures
            r is Pass,
    {
        PermissionCheck::Pass
    }

    /// Teammates do not see the schedule.
    pub fn available_for(&self, kind: AgentKind) -> (r: bool)
        ensures
            r == (kind != AgentKind::Teammate),
    {
        kind != AgentKind::Teammate
    }
}

impl CancelCronTool {
    pub fn name(&self) -> (r: &'static str)
        ensures
            r@ == "cancel_cron"@,
    {
        "cancel_cron"
    }

    pub fn description(&self) -> (r: &'static str)
        ensures
            r@ == "Cancel a cron job by ID."@,
    {
        "Cancel a cron job by ID."
    }

    pub fn input_schema(&self) -> (r: Json)
        ensures
            r@ == schema_v(
                seq![("job_id"@, typed_v("string"@))],
                seq![JsonV::Text("job_id"@)],
            ),
    {
        let mut properties: Vec<(String, Json)> = Vec::new();
        put(&mut properties, "job_id", typed("string"));
        let mut required: Vec<Json> = Vec::new();
        put_text(&mut required, "job_id");
        assert(fields_view(properties@) =~= seq![("job_id"@, typed_v("string"@))]);
        assert(list_view(required@) =~= seq![JsonV::Text("job_id"@)]);
        schema(properties, required)
    }

    /// Cancels the job of the input.
    pub fn execute(&self, manager: &mut CronManager, input: &Json) -> (r: String)
        ensures
            ({
                let id = input_text(input@, "job_id"@);
                match find_job(old(manager)@.jobs, id) {
                    None => r@ == "Error: "@ + ("Job "@ + id + " not found"@) && final(manager)@
                        == old(manager)@,
                    Some(j) => r@ == "Cancelled "@ + id && final(manager)@ == (CronV {
                        jobs: without(old(manager)@.jobs, id),
                        queue: without(old(manager)@.queue, id),
                        unsaved: old(manager)@.unsaved || j.durable,
                        ..old(manager)@
                    }),
                }
            }),
    {
        let id = text_input(input, "job_id");
        match manager.cancel(id.as_str()) {
            Ok(m) => m,
            Err(e) => concat2("Error: ", e.as_str()),
        }
    }

    /// What the tool says of a call before it runs: every call may run.
    pub fn check_permission(&self, _input: &Json) -> (r: PermissionCheck)
        ensures
            r is Pass,
    {
        PermissionCheck::Pass
    }

    /// Teammates do not cancel.
    pub fn available_for(&self, kind: AgentKind) -> (r: bool)
        ensures
            r == (kind != AgentKind::Teammate),
    {
        kind != AgentKind::Teammate
    }
}

// ---- laws ----

proof fn lemma_without_absent(jobs: Seq<CronJobV>, id: Seq<char>)
    requires
        !ids(jobs).contains(id),
    ensures
        without(jobs, id) == jobs,
    decreases jobs.len(),
{
    if jobs.len() > 0 {
        assert(ids(jobs)[jobs.len() - 1] == jobs.last().id);
        assert forall|i: int| 0 <= i < jobs.len() - 1 implies ids(jobs.drop_last())[i] != id by {
            assert(ids(jobs)[i] == jobs[i].id);
        }
        lemma_without_absent(jobs.drop_last(), id);
        assert(jobs.drop_last().push(jobs.last()) =~= jobs);
    }
}

proof fn lemma_without_elements(jobs: Seq<CronJobV>, id: Seq<char>)
    ensures
        forall|i: int|
            0 <= i < without(jobs, id).len() ==> jobs.contains(#[trigger] without(jobs, id)[i])
                && without(jobs, id)[i].id != id,
        distinct_ids(jobs) ==> distinct_ids(without(jobs, id)),
    decreases jobs.len(),
{
    if jobs.len() > 0 {
        let front = jobs.drop_last();
        lemma_without_elements(front, id);
        let rest = without(front, id);
        assert forall|i: int| 0 <= i < rest.len() implies jobs.contains(#[trigger] rest[i]) by {
            let k = choose|k: int| 0 <= k < front.len() && front[k] == rest[i];
            assert(jobs[k] == rest[i]);
        }
        assert(jobs[jobs.len() - 1] == jobs.last());
        if distinct_ids(jobs) {
            assert(distinct_ids(front)) by {
                assert forall|i: int, j: int| 0 <= i < j < front.len() implies (
                #[trigger] front[i]).id != (#[trigger] front[j]).id by {
                    assert(jobs[i].id != jobs[j].id);
                }
            }
            assert forall|i: int| 0 <= i < rest.len() implies (#[trigger] rest[i]).id
                != jobs.last().id by {
                let k = choose|k: int| 0 <= k < front.len() && front[k] == rest[i];
                assert(jobs[k].id != jobs[jobs.len() - 1].id);
            }
        }
    }
}

/// Cancelling a job that has just been scheduled gives back the jobs of before, and the queue of
/// before where only jobs that are there wait in it. In between no two jobs have the same id, if none
/// had before.
pub proof fn lemma_cancel_undoes_schedule(
    state: CronV,
    cron: Seq<char>,
    prompt: Seq<char>,
    recurring: bool,
    durable: bool,
    fault: Option<Seq<char>>,
    draws: Seq<u32>,
)
    requires
        scheduled(state, cron, prompt, recurring, durable, fault, draws).1 is Ok,
    ensures
        ({
            let (after, outcome) = scheduled(
                state,
                cron,
                prompt,
                recurring,
                durable,
                fault,
                draws,
            );
            let id = outcome->Ok_0.id;
            &&& find_job(after.jobs, id) == Some(outcome->Ok_0)
            &&& without(after.jobs, id) == state.jobs
            &&& distinct_ids(state.jobs) ==> distinct_ids(after.jobs)
            &&& (forall|i: int|
                0 <= i < state.queue.len() ==> ids(state.jobs).contains(
                    (#[trigger] state.queue[i]).id,
                )) ==> without(after.queue, id) == state.queue
        }),
{
    let (after, outcome) = scheduled(state, cron, prompt, recurring, durable, fault, draws);
    let job = outcome->Ok_0;
    lemma_first_free(state.jobs, draws);
    assert(after.jobs == state.jobs.push(job));
    assert(after.jobs.drop_last() =~= state.jobs);
    lemma_without_absent(state.jobs, job.id);
    if forall|i: int|
        0 <= i < state.queue.len() ==> ids(state.jobs).contains((#[trigger] state.queue[i]).id) {
        if ids(state.queue).contains(job.id) {
            let k = choose|k: int| 0 <= k < state.queue.len() && ids(state.queue)[k] == job.id;
            assert(state.queue[k].id == job.id);
        }
        lemma_without_absent(state.queue, job.id);
    }
    if distinct_ids(state.jobs) {
        lemma_put_keeps_apart(state.jobs, job);
    }
    lemma_find_last(state.jobs, job);
}

proof fn lemma_find_last(jobs: Seq<CronJobV>, job: CronJobV)
    requires
        !ids(jobs).contains(job.id),
    ensures
        find_job(jobs.push(job), job.id) == Some(job),
    decreases jobs.len(),
{
    let all = jobs.push(job);
    if jobs.len() > 0 {
        assert(ids(jobs)[0] == jobs[0].id);
        assert(all[0] == jobs[0]);
        assert(all.skip(1) =~= jobs.skip(1).push(job));
        assert forall|i: int| 0 <= i < jobs.len() - 1 implies ids(jobs.skip(1))[i] != job.id by {
            assert(ids(jobs)[i + 1] == jobs[i + 1].id);
        }
        lemma_find_last(jobs.skip(1), job);
    } else {
        assert(all[0] == job);
    }
}

/// A new job never takes an id that is in use, and its id is `cron_` and eight hexadecimal digits.
pub proof fn lemma_first_free(jobs: Seq<CronJobV>, draws: Seq<u32>)
    ensures
        first_free(jobs, draws) matches Some(id) ==> !ids(jobs).contains(id) && exists|n: u32|
            id == #[trigger] cron_id(n),
        first_free(jobs, draws) is None ==> forall|i: int|
            0 <= i < draws.len() ==> ids(jobs).contains(cron_id(#[trigger] draws[i])),
    decreases draws.len(),
{
    if draws.len() > 0 && ids(jobs).contains(cron_id(draws[0])) {
        lemma_first_free(jobs, draws.skip(1));
        if first_free(jobs, draws) is None {
            assert forall|i: int| 0 <= i < draws.len() implies ids(jobs).contains(
                cron_id(#[trigger] draws[i]),
            ) by {
                if i > 0 {
                    assert(draws.skip(1)[i - 1] == draws[i]);
                }
            }
        }
    }
}

/// No operation gives two jobs the same id: inserting, cancelling, firing, acknowledging and giving
/// back all keep the ids apart.
pub proof fn lemma_ids_stay_distinct(
    jobs: Seq<CronJobV>,
    job: CronJobV,
    id: Seq<char>,
    now: Moment,
    delivered: Seq<Seq<char>>,
)
    requires
        distinct_ids(jobs),
    ensures
        distinct_ids(put_job(jobs, job)),
        distinct_ids(without(jobs, id)),
        distinct_ids(ticked_jobs(jobs, now)),
        distinct_ids(acknowledged(jobs, delivered)),
        distinct_ids(waiting_jobs(jobs, delivered)),
{
    lemma_put_keeps_apart(jobs, job);
    lemma_without_elements(jobs, id);
    lemma_marks_keep_apart(jobs, ticked_jobs(jobs, now));
    lemma_acknowledged(jobs, delivered);
    lemma_marks_keep_apart(jobs, waiting_jobs(jobs, delivered));
}

proof fn lemma_put_keeps_apart(jobs: Seq<CronJobV>, job: CronJobV)
    requires
        distinct_ids(jobs),
    ensures
        distinct_ids(put_job(jobs, job)),
{
    let after = put_job(jobs, job);
    assert forall|i: int, j: int| 0 <= i < j < after.len() implies (#[trigger] after[i]).id != (
    #[trigger] after[j]).id by {
        if ids(jobs).contains(job.id) {
            assert(jobs[i].id != jobs[j].id);
        } else {
            assert(ids(jobs)[i] == jobs[i].id);
            if j < jobs.len() {
                assert(jobs[i].id != jobs[j].id);
            }
        }
    }
}

proof fn lemma_marks_keep_apart(jobs: Seq<CronJobV>, after: Seq<CronJobV>)
    requires
        distinct_ids(jobs),
        after.len() == jobs.len(),
        forall|i: int| 0 <= i < jobs.len() ==> (#[trigger] after[i]).id == jobs[i].id,
    ensures
        distinct_ids(after),
{
    assert forall|i: int, j: int| 0 <= i < j < after.len() implies (#[trigger] after[i]).id != (
    #[trigger] after[j]).id by {
        assert(jobs[i].id != jobs[j].id);
    }
}

/// After an acknowledgement every delivered job that is left is recurring and waits no more; the
/// one-shot jobs among them are gone, and the other jobs are as they were.
pub proof fn lemma_acknowledged(jobs: Seq<CronJobV>, delivered: Seq<Seq<char>>)
    ensures
        forall|i: int|
            0 <= i < acknowledged(jobs, delivered).len() ==> {
                let j = #[trigger] acknowledged(jobs, delivered)[i];
                if delivered.contains(j.id) {
                    j.recurring && !j.pending_delivery
                } else {
                    jobs.contains(j)
                }
            },
        forall|i: int|
            0 <= i < acknowledged(jobs, delivered).len() ==> ids(jobs).contains(
                (#[trigger] acknowledged(jobs, delivered)[i]).id,
            ),
        forall|k: int|
            0 <= k < jobs.len() && !delivered.contains((#[trigger] jobs[k]).id) ==> acknowledged(
                jobs,
                delivered,
            ).contains(jobs[k]),
        distinct_ids(jobs) ==> distinct_ids(acknowledged(jobs, delivered)),
    decreases jobs.len(),
{
    if jobs.len() > 0 {
        let front = jobs.drop_last();
        lemma_acknowledged(front, delivered);
        let rest = acknowledged(front, delivered);
        let after = acknowledged(jobs, delivered);
        let last = jobs.last();
        assert(jobs[jobs.len() - 1] == last);
        assert(ids(jobs)[jobs.len() - 1] == last.id);
        assert forall|i: int| 0 <= i < rest.len() implies ids(jobs).contains(
            (#[trigger] rest[i]).id,
        ) by {
            let k = choose|k: int| 0 <= k < ids(front).len() && ids(front)[k] == rest[i].id;
            assert(ids(jobs)[k] == rest[i].id);
        }
        assert forall|i: int|
            0 <= i < rest.len() && !delivered.contains(rest[i].id) implies jobs.contains(
            #[trigger] rest[i],
        ) by {
            let k = choose|k: int| 0 <= k < front.len() && front[k] == rest[i];
            assert(jobs[k] == rest[i]);
        }
        assert forall|k: int|
            0 <= k < jobs.len() && !delivered.contains(
                (#[trigger] jobs[k]).id,
            ) implies after.contains(jobs[k]) by {
            if k < front.len() {
                assert(front[k] == jobs[k]);
                let i = choose|i: int| 0 <= i < rest.len() && rest[i] == jobs[k];
                assert(after[i] == jobs[k]);
            } else {
                assert(after[after.len() - 1] == jobs[k]);
            }
        }
        if distinct_ids(jobs) {
            assert(distinct_ids(front)) by {
                assert forall|i: int, j: int| 0 <= i < j < front.len() implies (
                #[trigger] front[i]).id != (#[trigger] front[j]).id by {
                    assert(jobs[i].id != jobs[j].id);
                }
            }
            assert forall|i: int| 0 <= i < rest.len() implies (#[trigger] rest[i]).id
                != last.id by {
                let k = choose|k: int| 0 <= k < ids(front).len() && ids(front)[k] == rest[i].id;
                assert(front[k].id == rest[i].id);
                assert(jobs[k].id != jobs[jobs.len() - 1].id);
            }
        }
    }
}

/// A job fires at most once in a minute: a second look at the clock in the same minute queues
/// nothing and changes no job.
pub proof fn lemma_fires_once_a_minute(jobs: Seq<CronJobV>, now: Moment)
    ensures
        fired_jobs(ticked_jobs(jobs, now), now) == Seq::<CronJobV>::empty(),
        ticked_jobs(ticked_jobs(jobs, now), now) == ticked_jobs(jobs, now),
    decreases jobs.len(),
{
    let after = ticked_jobs(jobs, now);
    assert(ticked_jobs(after, now) =~= after);
    if jobs.len() > 0 {
        lemma_fires_once_a_minute(jobs.drop_last(), now);
        assert(after.drop_last() =~= ticked_jobs(jobs.drop_last(), now));
        assert(after.last() == ticked(jobs.last(), now));
    }
}

proof fn lemma_find_some(jobs: Seq<CronJobV>, id: Seq<char>)
    ensures
        ids(jobs).contains(id) <==> find_job(jobs, id) is Some,
        find_job(jobs, id) matches Some(j) ==> j.id == id && jobs.contains(j),
    decreases jobs.len(),
{
    if jobs.len() > 0 {
        assert(ids(jobs)[0] == jobs[0].id);
        lemma_find_some(jobs.skip(1), id);
        if jobs[0].id != id {
            if ids(jobs).contains(id) {
                let k = choose|k: int| 0 <= k < ids(jobs).len() && ids(jobs)[k] == id;
                assert(ids(jobs.skip(1))[k - 1] == id);
            }
            if ids(jobs.skip(1)).contains(id) {
                let k = choose|k: int|
                    0 <= k < ids(jobs.skip(1)).len() && ids(jobs.skip(1))[k] == id;
                assert(ids(jobs)[k + 1] == id);
            }
            if find_job(jobs, id) is Some {
                let j = find_job(jobs, id)->0;
                let k = choose|k: int| 0 <= k < jobs.skip(1).len() && jobs.skip(1)[k] == j;
                assert(jobs[k + 1] == j);
            }
        } else {
            assert(jobs[0] == find_job(jobs, id)->0);
        }
    }
}

/// Taking the queue and giving all of it back queues the same jobs in the same order, where they are
/// all still scheduled.
pub proof fn lemma_restore_undoes_consume(jobs: Seq<CronJobV>, queue: Seq<CronJobV>)
    requires
        forall|i: int| 0 <= i < queue.len() ==> ids(jobs).contains((#[trigger] queue[i]).id),
    ensures
        ids(requeued(jobs, ids(Seq::<CronJobV>::empty()), ids(queue))) == ids(queue),
    decreases queue.len(),
{
    let none = ids(Seq::<CronJobV>::empty());
    if queue.len() > 0 {
        let front = queue.drop_last();
        assert forall|i: int| 0 <= i < front.len() implies ids(jobs).contains(
            (#[trigger] front[i]).id,
        ) by {
            assert(queue[i] == front[i]);
        }
        lemma_restore_undoes_consume(jobs, front);
        assert(ids(queue).drop_last() =~= ids(front));
        assert(ids(queue).last() == queue.last().id);
        assert(queue[queue.len() - 1] == queue.last());
        lemma_find_some(jobs, queue.last().id);
        let rest = requeued(jobs, none, ids(front));
        let j = find_job(jobs, queue.last().id)->0;
        let back = rest.push(CronJobV { pending_delivery: true, ..j });
        assert(requeued(jobs, none, ids(queue)) == back);
        assert(ids(back) =~= ids(rest).push(j.id));
        assert(ids(queue) =~= ids(front).push(queue.last().id));
    } else {
        assert(ids(requeued(jobs, none, ids(queue))) =~= ids(queue));
    }
}

/// What was written to disk is read back: a scheduler without jobs that loads the durable jobs of
/// another holds these, in this order.
pub proof fn lemma_saved_jobs_load(state: CronV, payload: Seq<CronJobV>)
    requires
        state.jobs.len() == 0,
        distinct_ids(payload),
        forall|i: int| 0 <= i < payload.len() ==> saved_fault(#[trigger] payload[i]) is None,
    ensures
        loaded(state, payload).0.jobs == payload,
        loaded(state, payload).1 == payload.len(),
        loaded(state, payload).2 == Seq::<Seq<char>>::empty(),
    decreases payload.len(),
{
    if payload.len() > 0 {
        let front = payload.drop_last();
        assert forall|i: int| 0 <= i < front.len() implies saved_fault(#[trigger] front[i]) is None by {
            assert(payload[i] == front[i]);
        }
        assert forall|i: int, j: int| 0 <= i < j < front.len() implies (#[trigger] front[i]).id != (
        #[trigger] front[j]).id by {
            assert(payload[i].id != payload[j].id);
        }
        lemma_saved_jobs_load(state, front);
        assert(saved_fault(payload[payload.len() - 1]) is None);
        let last = payload.last();
        assert(!ids(front).contains(last.id)) by {
            assert forall|k: int| 0 <= k < ids(front).len() implies ids(front)[k] != last.id by {
                assert(payload[k].id != payload[payload.len() - 1].id);
            }
        }
        assert(front.push(last) =~= payload);
    } else {
        assert(state.jobs =~= payload);
    }
}

} // verus!

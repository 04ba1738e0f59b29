//! How teammates are started, what they do between their turns, and what they tell the lead.

use vstd::prelude::*;

use crate::domain::message::{messages_view, user_text_v, Message, MessageV};
use crate::task_system::store::{find_task, replaced, TaskStore};
use crate::task_system::task::{Task, TaskStatus, TaskV};
use crate::gate_laws::lemma_task_block_tells;
use crate::select::{holds, lemma_holds_within};
use crate::text::{
    ascii_alphanumeric, chars_of, concat2, concat3, eq_ignore_ascii_case, is_ascii_alphanumeric,
    owned, same_ignoring_ascii_case, str_eq, str_starts_with,
};

verus! {

broadcast use vstd::string::group_string_axioms;

// ---- names ----

/// A character of a name.
pub open spec fn name_char(c: char) -> bool {
    ascii_alphanumeric(c) || c == '_' || c == '-'
}

/// A name for an agent: 1 to 64 letters, digits, underscores or dashes.
pub open spec fn valid_name(name: Seq<char>) -> bool {
    1 <= name.len() <= 64 && forall|i: int| 0 <= i < name.len() ==> name_char(#[trigger] name[i])
}

/// Whether the text is a name for an agent.
pub fn is_valid_agent_name(name: &str) -> (r: bool)
    ensures
        r == valid_name(name@),
{
    let cs = chars_of(name);
    if cs.len() < 1 || cs.len() > 64 {
        return false;
    }
    let mut i: usize = 0;
    while i < cs.len()
        invariant
            i <= cs@.len(),
            cs@ == name@,
            forall|k: int| 0 <= k < i ==> name_char(#[trigger] cs@[k]),
        decreases cs@.len() - i,
    {
        if !(is_ascii_alphanumeric(cs[i]) || cs[i] == '_' || cs[i] == '-') {
            assert(!name_char(name@[i as int]));
            return false;
        }
        i += 1;
    }
    true
}

/// A name that the runtime uses itself, in any case.
pub open spec fn reserved_name(name: Seq<char>) -> bool {
    same_ignoring_ascii_case(name, "lead"@) || same_ignoring_ascii_case(name, "agent"@)
}

/// Whether the runtime uses the name itself, in any case.
pub fn is_reserved_teammate_name(name: &str) -> (r: bool)
    ensures
        r == reserved_name(name@),
{
    eq_ignore_ascii_case(name, "lead") || eq_ignore_ascii_case(name, "agent")
}

// ---- roster ----

/// What a teammate is doing.
#[derive(Clone, Copy, Debug, PartialEq, Eq, Structural)]
pub enum TeammateStatus {
    Working,
    WaitingApproval,
    Idle,
    Stopping,
}

/// How far a teammate's plan is.
#[derive(Clone, Copy, Debug, PartialEq, Eq, Structural)]
pub enum GateStatus {
    NotRequired,
    Required,
    Pending,
    Approved,
}

/// A teammate that is there.
#[derive(Debug)]
pub struct Teammate {
    pub name: String,
    pub status: TeammateStatus,
}

/// The teammates that are there, by name and status.
pub open spec fn members_view(s: Seq<Teammate>) -> Seq<(Seq<char>, TeammateStatus)> {
    s.map_values(|t: Teammate| (t.name@, t.status))
}

/// The teammates that are there.
#[derive(Debug)]
pub struct TeamRoster {
    active: Vec<Teammate>,
}

impl View for TeamRoster {
    type V = Seq<(Seq<char>, TeammateStatus)>;

    closed spec fn view(&self) -> Seq<(Seq<char>, TeammateStatus)> {
        members_view(self.active@)
    }
}

/// A teammate of the name is there, in any case.
pub open spec fn taken(roster: Seq<(Seq<char>, TeammateStatus)>, name: Seq<char>) -> bool {
    exists|i: int|
        0 <= i < roster.len() && same_ignoring_ascii_case((#[trigger] roster[i]).0, name)
}

/// No two teammates have the same name, in any case.
pub open spec fn distinct_names(roster: Seq<(Seq<char>, TeammateStatus)>) -> bool {
    forall|i: int, j: int|
        0 <= i < j < roster.len() ==> !same_ignoring_ascii_case(
            (#[trigger] roster[i]).0,
            (#[trigger] roster[j]).0,
        )
}

/// Why a teammate of the name cannot be started, if it cannot.
pub open spec fn spawn_refusal(
    roster: Seq<(Seq<char>, TeammateStatus)>,
    name: Seq<char>,
    has_team: bool,
) -> Option<Seq<char>> {
    if !valid_name(name) {
        Some("Invalid teammate name: use 1-64 letters, digits, underscores, or dashes"@)
    } else if reserved_name(name) {
        Some("Invalid teammate name: '"@ + name + "' is reserved by the runtime"@)
    } else if !has_team {
        Some("Error: team not initialized"@)
    } else if taken(roster, name) {
        Some("Teammate '"@ + name + "' already exists"@)
    } else {
        None
    }
}

/// The start of a teammate, where `claim` is the answer to claiming its first task, if it has one: the
/// roster after it, what the caller is told, whether the teammate runs, and how far its plan is.
pub open spec fn spawned(
    roster: Seq<(Seq<char>, TeammateStatus)>,
    name: Seq<char>,
    role: Seq<char>,
    has_team: bool,
    claim: Option<Seq<char>>,
    require_plan: bool,
) -> (Seq<(Seq<char>, TeammateStatus)>, Seq<char>, bool, GateStatus) {
    match spawn_refusal(roster, name, has_team) {
        Some(why) => (roster, why, false, GateStatus::NotRequired),
        None => if claim is Some && !"Claimed"@.is_prefix_of(claim->0) {
            (
                roster,
                "Cannot spawn teammate '"@ + name + "': "@ + claim->0,
                false,
                GateStatus::NotRequired,
            )
        } else {
            (
                roster.push((name, TeammateStatus::Working)),
                "Teammate '"@ + name + "' spawned as "@ + role
                    + ". End this turn; the runtime will deliver its events."@,
                true,
                if require_plan {
                    GateStatus::Required
                } else {
                    GateStatus::NotRequired
                },
            )
        },
    }
}

/// What came of starting a teammate.
#[derive(Debug)]
pub struct SpawnReply {
    pub message: String,
    /// Whether the teammate is to be run.
    pub started: bool,
    /// How far its plan is.
    pub gate: GateStatus,
}

impl TeamRoster {
    pub fn new() -> (r: Self)
        ensures
            r@ == Seq::<(Seq<char>, TeammateStatus)>::empty(),
            distinct_names(r@),
    {
        let r = TeamRoster { active: Vec::new() };
        assert(r@ =~= Seq::<(Seq<char>, TeammateStatus)>::empty());
        r
    }

    /// Whether a teammate of the name is there, in any case.
    pub fn is_taken(&self, name: &str) -> (r: bool)
        ensures
            r == taken(self@, name@),
    {
        let mut i: usize = 0;
        while i < self.active.len()
            invariant
                i <= self.active@.len(),
                forall|k: int|
                    0 <= k < i ==> !same_ignoring_ascii_case((#[trigger] self@[k]).0, name@),
            decreases self.active@.len() - i,
        {
            if eq_ignore_ascii_case(self.active[i].name.as_str(), name) {
                assert(same_ignoring_ascii_case(self@[i as int].0, name@));
                return true;
            }
            i += 1;
        }
        false
    }

    /// Why a teammate of the name cannot be started, if it cannot.
    pub fn refusal(&self, name: &str, has_team: bool) -> (r: Option<String>)
        ensures
            r.deep_view() == spawn_refusal(self@, name@, has_team),
    {
        if !is_valid_agent_name(name) {
            Some(owned("Invalid teammate name: use 1-64 letters, digits, underscores, or dashes"))
        } else if is_reserved_teammate_name(name) {
            Some(concat3("Invalid teammate name: '", name, "' is reserved by the runtime"))
        } else if !has_team {
            Some(owned("Error: team not initialized"))
        } else if self.is_taken(name) {
            Some(concat3("Teammate '", name, "' already exists"))
        } else {
            None
        }
    }
}

/// Starts a teammate, where `claim` is the answer to claiming its first task, if it has one.
pub fn spawn_teammate_thread(
    roster: &mut TeamRoster,
    name: &str,
    role: &str,
    has_team: bool,
    claim: Option<String>,
    require_plan: bool,
) -> (r: SpawnReply)
    ensures
        spawned(old(roster)@, name@, role@, has_team, claim.deep_view(), require_plan) == (
            final(roster)@,
            r.message@,
            r.started,
            r.gate,
        ),
        distinct_names(old(roster)@) ==> distinct_names(final(roster)@),
{
    match roster.refusal(name, has_team) {
        Some(why) => {
            return SpawnReply { message: why, started: false, gate: GateStatus::NotRequired };
        },
        None => {},
    }
    match claim {
        Some(answer) => {
            if !str_starts_with(answer.as_str(), "Claimed") {
                let head = concat3("Cannot spawn teammate '", name, "': ");
                return SpawnReply {
                    message: concat2(head.as_str(), answer.as_str()),
                    started: false,
                    gate: GateStatus::NotRequired,
                };
            }
        },
        None => {},
    }
    let ghost before = roster@;
    roster.active.push(Teammate { name: owned(name), status: TeammateStatus::Working });
    assert(roster@ =~= before.push((name@, TeammateStatus::Working)));
    proof {
        if distinct_names(before) {
            lemma_fresh_name_keeps_distinct(before, name@, TeammateStatus::Working);
        }
    }
    let head = concat3("Teammate '", name, "' spawned as ");
    let message = concat3(
        head.as_str(),
        role,
        ". End this turn; the runtime will deliver its events.",
    );
    let gate = if require_plan {
        GateStatus::Required
    } else {
        GateStatus::NotRequired
    };
    SpawnReply { message, started: true, gate }
}

impl TeamRoster {
    /// The teammate is doing something else; it joins the roster where it is not there.
    pub fn set_status(&mut self, name: &str, status: TeammateStatus)
        ensures
            final(self)@ == with_status(old(self)@, name@, status),
    {
        let ghost all = self@;
        if self.status(name).is_none() {
            self.active.push(Teammate { name: owned(name), status });
            assert(self@ =~= all.push((name@, status)));
            return;
        }
        let ghost goal = changed(all, name@, status);
        let n: usize = self.active.len();
        let mut i: usize = 0;
        while i < n
            invariant
                i <= n,
                n == self.active@.len(),
                all.len() == n,
                goal == changed(all, name@, status),
                forall|k: int| 0 <= k < i ==> self@[k] == #[trigger] goal[k],
                forall|k: int| i <= k < n ==> self@[k] == #[trigger] all[k],
            decreases n - i,
        {
            let ghost before = self@;
            assert(self@[i as int] == all[i as int]);
            if str_eq(self.active[i].name.as_str(), name) {
                let changed = Teammate { name: self.active[i].name.clone(), status };
                self.active.set(i, changed);
                assert(self@ =~= before.update(i as int, (name@, status)));
            }
            assert(self@[i as int] == goal[i as int]);
            assert forall|k: int| 0 <= k < i + 1 implies self@[k] == #[trigger] goal[k] by {
                if k < i {
                    assert(before[k] == goal[k]);
                }
            }
            assert forall|k: int| i + 1 <= k < n implies self@[k] == #[trigger] all[k] by {
                assert(before[k] == all[k]);
            }
            i += 1;
        }
        assert(self@ =~= goal);
    }

    /// What the teammate is doing, where it is there.
    pub fn status(&self, name: &str) -> (r: Option<TeammateStatus>)
        ensures
            r == status_of(self@, name@),
    {
        let ghost all = self@;
        assert(all.skip(0) =~= all);
        let mut i: usize = 0;
        while i < self.active.len()
            invariant
                i <= self.active@.len(),
                all == self@,
                status_of(all, name@) == status_of(all.skip(i as int), name@),
            decreases self.active@.len() - i,
        {
            assert(all.skip(i as int)[0] == all[i as int]);
            assert(all.skip(i as int).skip(1) =~= all.skip(i + 1));
            if str_eq(self.active[i].name.as_str(), name) {
                return Some(self.active[i].status);
            }
            i += 1;
        }
        None
    }

    /// The teammate is gone.
    pub fn remove(&mut self, name: &str)
        ensures
            final(self)@ == without_member(old(self)@, name@),
    {
        let ghost all = self@;
        let mut kept: Vec<Teammate> = Vec::new();
        assert(members_view(kept@) =~= without_member(all.take(0), name@));
        let mut i: usize = 0;
        while i < self.active.len()
            invariant
                i <= self.active@.len(),
                all == self@,
                members_view(kept@) == without_member(all.take(i as int), name@),
            decreases self.active@.len() - i,
        {
            let ghost before = members_view(kept@);
            assert(all.take(i + 1).drop_last() =~= all.take(i as int));
            assert(all.take(i + 1).last() == all[i as int]);
            if !str_eq(self.active[i].name.as_str(), name) {
                let copy = Teammate {
                    name: self.active[i].name.clone(),
                    status: self.active[i].status,
                };
                kept.push(copy);
                assert(members_view(kept@) =~= before.push(all[i as int]));
            }
            i += 1;
        }
        assert(all.take(self.active@.len() as int) =~= all);
        self.active = kept;
    }
}

/// What the teammate of the name is doing, where it is there.
pub open spec fn status_of(
    roster: Seq<(Seq<char>, TeammateStatus)>,
    name: Seq<char>,
) -> Option<TeammateStatus>
    decreases roster.len(),
{
    if roster.len() == 0 {
        None
    } else if roster[0].0 == name {
        Some(roster[0].1)
    } else {
        status_of(roster.skip(1), name)
    }
}

/// The roster with the teammate of the name, where it is there, doing something else.
pub open spec fn changed(
    roster: Seq<(Seq<char>, TeammateStatus)>,
    name: Seq<char>,
    status: TeammateStatus,
) -> Seq<(Seq<char>, TeammateStatus)> {
    roster.map_values(
        |m: (Seq<char>, TeammateStatus)|
            if m.0 == name {
                (m.0, status)
            } else {
                m
            },
    )
}

/// The roster with the teammate of the name doing something else; it joins where it is not there.
pub open spec fn with_status(
    roster: Seq<(Seq<char>, TeammateStatus)>,
    name: Seq<char>,
    status: TeammateStatus,
) -> Seq<(Seq<char>, TeammateStatus)> {
    if status_of(roster, name) is Some {
        changed(roster, name, status)
    } else {
        roster.push((name, status))
    }
}

/// The roster without the teammate of the name.
pub open spec fn without_member(
    roster: Seq<(Seq<char>, TeammateStatus)>,
    name: Seq<char>,
) -> Seq<(Seq<char>, TeammateStatus)>
    decreases roster.len(),
{
    if roster.len() == 0 {
        Seq::empty()
    } else {
        let rest = without_member(roster.drop_last(), name);
        if roster.last().0 == name {
            rest
        } else {
            rest.push(roster.last())
        }
    }
}

// ---- turns ----

/// What a teammate does next.
#[derive(Clone, Copy, Debug, PartialEq, Eq, Structural)]
pub enum Phase {
    /// Works on.
    Continue,
    /// Waits for work.
    Idle,
    /// Ends.
    Stop,
}

/// What follows a turn of a teammate.
#[derive(Debug)]
pub struct WorkStep {
    pub phase: Phase,
    /// What the teammate is doing from now on, where that changes.
    pub status: Option<TeammateStatus>,
    /// What the lead is sent, each text with its kind.
    pub sends: Vec<(String, String)>,
    /// Whether a completed task is given up.
    pub release: bool,
}

/// The texts and kinds of what is sent.
pub open spec fn sends_view(s: Seq<(String, String)>) -> Seq<(Seq<char>, Seq<char>)> {
    s.map_values(|m: (String, String)| (m.0@, m.1@))
}

/// `r` is what follows a turn of a teammate.
pub open spec fn turn_followed(
    stopping: bool,
    gate: GateStatus,
    answer: Option<String>,
    r: WorkStep,
) -> bool {
    if stopping {
        r.phase == Phase::Stop && r.status is None && r.sends@.len() == 0 && !r.release
    } else if gate == GateStatus::Pending {
        r.phase == Phase::Idle && r.status == Some(TeammateStatus::WaitingApproval)
            && r.sends@.len() == 0 && !r.release
    } else {
        &&& r.phase == Phase::Idle
        &&& r.status == Some(TeammateStatus::Idle)
        &&& r.release
        &&& sends_view(r.sends@) == (match answer {
            Some(t) => seq![(t@, "result"@)],
            None => Seq::empty(),
        }).push(("Waiting for more work."@, "idle_notification"@))
    }
}

/// What follows a turn of a teammate: it ends where it was told to, waits where its plan is not
/// approved yet, and otherwise sends what it has found and waits for more work.
pub fn after_turn(stopping: bool, gate: GateStatus, answer: Option<String>) -> (r: WorkStep)
    ensures
        turn_followed(stopping, gate, answer, r),
{
    let mut sends: Vec<(String, String)> = Vec::new();
    if stopping {
        return WorkStep { phase: Phase::Stop, status: None, sends, release: false };
    }
    if gate == GateStatus::Pending {
        return WorkStep {
            phase: Phase::Idle,
            status: Some(TeammateStatus::WaitingApproval),
            sends,
            release: false,
        };
    }
    let ghost goal = (match answer.deep_view() {
        Some(t) => seq![(t, "result"@)],
        None => Seq::empty(),
    }).push(("Waiting for more work."@, "idle_notification"@));
    match answer {
        Some(t) => {
            sends.push((t, owned("result")));
        },
        None => {},
    }
    sends.push((owned("Waiting for more work."), owned("idle_notification")));
    assert(sends_view(sends@) =~= goal);
    WorkStep { phase: Phase::Idle, status: Some(TeammateStatus::Idle), sends, release: true }
}

/// What follows a look into the mailbox of a teammate that waits.
#[derive(Clone, Copy, Debug, PartialEq, Eq, Structural)]
pub enum WaitStep {
    /// It ends.
    Exit,
    /// It works.
    Work,
    /// It looks again.
    Wait,
    /// It looks for a task to claim.
    Claim,
}

/// What follows a look into the mailbox: `mail` says whether something was in it, `stop` whether it
/// told the teammate to end, `grew` whether it added to the conversation.
pub fn after_mail(mail: bool, stop: bool, grew: bool) -> (r: WaitStep)
    ensures
        r == if !mail {
            WaitStep::Claim
        } else if stop {
            WaitStep::Exit
        } else if grew {
            WaitStep::Work
        } else {
            WaitStep::Wait
        },
{
    if !mail {
        WaitStep::Claim
    } else if stop {
        WaitStep::Exit
    } else if grew {
        WaitStep::Work
    } else {
        WaitStep::Wait
    }
}

/// A task and the directory to work in.
pub open spec fn task_block(lead: Seq<char>, t: TaskV, cwd: Seq<char>) -> Seq<char> {
    lead + t.id + "] "@ + t.subject + "\n"@ + t.description + "\nWork directory: "@ + cwd
}

fn describe_task(lead: &str, task: &Task, cwd: &str) -> (r: String)
    ensures
        r@ == task_block(lead@, task@, cwd@),
{
    let head = concat3(lead, task.id.as_str(), "] ");
    let titled = concat3(head.as_str(), task.subject.as_str(), "\n");
    let told = concat3(titled.as_str(), task.description.as_str(), "\nWork directory: ");
    concat2(told.as_str(), cwd)
}

/// The first message of a teammate: its prompt, and the task that it was started with.
pub fn first_message(prompt: &str, assigned: Option<(&Task, &str)>) -> (r: Message)
    ensures
        r@ == user_text_v(
            match assigned {
                Some((t, cwd)) => prompt@ + task_block("\n\n[Assigned task "@, t@, cwd@),
                None => prompt@,
            },
        ),
        prompt@.is_prefix_of(r@.content[0]->text),
        assigned matches Some((t, cwd)) ==> holds(
            r@.content[0]->text,
            seq![t@.id, t@.subject, t@.description, cwd@],
        ),
{
    proof {
        if let Some((t, cwd)) = assigned {
            let lead = "\n\n[Assigned task "@;
            let block = task_block(lead, t@, cwd@);
            let parts = seq![t@.id, t@.subject, t@.description, cwd@];
            lemma_task_block_tells(lead, t@, cwd@);
            lemma_holds_within(prompt@, block, Seq::empty(), parts);
            assert(prompt@ + block + Seq::<char>::empty() =~= prompt@ + block);
            assert((prompt@ + block).take(prompt@.len() as int) =~= prompt@);
        } else {
            assert(prompt@.take(prompt@.len() as int) =~= prompt@);
        }
    }
    match assigned {
        Some((task, cwd)) => {
            let block = describe_task("\n\n[Assigned task ", task, cwd);
            Message::user_text(concat2(prompt, block.as_str()).as_str())
        },
        None => Message::user_text(prompt),
    }
}

/// The message that gives a teammate the task that it has claimed.
pub fn claimed_message(task: &Task, cwd: &str) -> (r: Message)
    ensures
        r@ == user_text_v(task_block("[Auto-claimed task "@, task@, cwd@)),
{
    Message::user_text(describe_task("[Auto-claimed task ", task, cwd).as_str())
}

// ---- a teammate at work ----

/// What a teammate is to do now.
#[derive(Clone, Copy, Debug, PartialEq, Eq, Structural)]
pub enum Duty {
    /// Run the agent loop on its conversation.
    Work,
    /// Wait for mail.
    Wait,
    /// Look for a task to claim.
    Claim,
}

/// A teammate and its conversation.
#[verifier::ext_equal]
pub struct RuntimeV {
    pub name: Seq<char>,
    pub messages: Seq<MessageV>,
    /// What it is to do now; nothing once it has ended.
    pub duty: Option<Duty>,
}

/// A teammate and its conversation, from its start to its end.
#[derive(Debug)]
pub struct TeammateRuntime {
    name: String,
    messages: Vec<Message>,
    duty: Option<Duty>,
}

impl View for TeammateRuntime {
    type V = RuntimeV;

    closed spec fn view(&self) -> RuntimeV {
        RuntimeV {
            name: self.name@,
            messages: messages_view(self.messages@),
            duty: self.duty,
        }
    }
}

/// What a phase asks for.
pub open spec fn duty_of(phase: Phase) -> Option<Duty> {
    match phase {
        Phase::Continue => Some(Duty::Work),
        Phase::Idle => Some(Duty::Wait),
        Phase::Stop => None,
    }
}

/// What follows a look into the mailbox.
pub open spec fn duty_after_mail(mail: bool, stop: bool, grew: bool) -> Option<Duty> {
    if !mail {
        Some(Duty::Claim)
    } else if stop {
        None
    } else if grew {
        Some(Duty::Work)
    } else {
        Some(Duty::Wait)
    }
}

impl TeammateRuntime {
    /// A teammate with its prompt, and the task that it was started with; it works at once.
    pub fn new(name: &str, prompt: &str, assigned: Option<(&Task, &str)>) -> (r: Self)
        ensures
            r@.name == name@,
            r@.duty == Some(Duty::Work),
            r@.messages == seq![
                user_text_v(
                    match assigned {
                        Some((t, cwd)) => prompt@ + task_block("\n\n[Assigned task "@, t@, cwd@),
                        None => prompt@,
                    },
                ),
            ],
    {
        let first = first_message(prompt, assigned);
        let mut messages: Vec<Message> = Vec::new();
        messages.push(first);
        assert(messages_view(messages@) =~= seq![first@]);
        TeammateRuntime { name: owned(name), messages, duty: Some(Duty::Work) }
    }

    pub fn name(&self) -> (r: &str)
        ensures
            r@ == self@.name,
    {
        self.name.as_str()
    }

    pub fn messages(&self) -> (r: &Vec<Message>)
        ensures
            messages_view(r@) == self@.messages,
    {
        &self.messages
    }

    /// What the teammate is to do now; nothing once it has ended.
    pub fn duty(&self) -> (r: Option<Duty>)
        ensures
            r == self@.duty,
    {
        self.duty
    }

    /// The agent loop has run, and the conversation is `messages` now.
    pub fn worked(
        &mut self,
        messages: Vec<Message>,
        stopping: bool,
        gate: GateStatus,
        answer: Option<String>,
    ) -> (r: WorkStep)
        ensures
            turn_followed(stopping, gate, answer, r),
            final(self)@ == (RuntimeV {
                messages: messages_view(messages@),
                duty: duty_of(r.phase),
                ..old(self)@
            }),
    {
        let step = after_turn(stopping, gate, answer);
        self.messages = messages;
        self.duty = match step.phase {
            Phase::Continue => Some(Duty::Work),
            Phase::Idle => Some(Duty::Wait),
            Phase::Stop => None,
        };
        step
    }

    /// The mailbox was looked into: whether something was in it, what that added to the conversation,
    /// and whether it told the teammate to end.
    pub fn mail_read(&mut self, mail: bool, stop: bool, added: Vec<Message>)
        ensures
            final(self)@ == (RuntimeV {
                messages: old(self)@.messages + messages_view(added@),
                duty: duty_after_mail(mail, stop, added@.len() > 0),
                ..old(self)@
            }),
            old(self)@.messages.is_prefix_of(final(self)@.messages),
            final(self)@.messages.skip(old(self)@.messages.len() as int) == messages_view(added@),
    {
        proof {
            let all = self@.messages + messages_view(added@);
            assert(all.take(self@.messages.len() as int) =~= self@.messages);
            assert(all.skip(self@.messages.len() as int) =~= messages_view(added@));
        }
        let ghost before = self.messages@;
        let ghost more = added@;
        let grew = added.len() > 0;
        let mut added = added;
        self.messages.append(&mut added);
        assert(messages_view(self.messages@) =~= messages_view(before) + messages_view(more));
        self.duty = match after_mail(mail, stop, grew) {
            WaitStep::Exit => None,
            WaitStep::Work => Some(Duty::Work),
            WaitStep::Wait => Some(Duty::Wait),
            WaitStep::Claim => Some(Duty::Claim),
        };
    }

    /// A task was looked for: the one that was claimed, with the directory to work in, or none.
    pub fn task_claimed(&mut self, claimed: Option<(&Task, &str)>)
        ensures
            final(self)@ == (match claimed {
                Some((t, cwd)) => RuntimeV {
                    messages: old(self)@.messages.push(
                        user_text_v(task_block("[Auto-claimed task "@, t@, cwd@)),
                    ),
                    duty: Some(Duty::Work),
                    ..old(self)@
                },
                None => RuntimeV { duty: Some(Duty::Wait), ..old(self)@ },
            }),
    {
        match claimed {
            Some((task, cwd)) => {
                let ghost before = self@.messages;
                let m = claimed_message(task, cwd);
                self.messages.push(m);
                assert(messages_view(self.messages@) =~= before.push(m@));
                self.duty = Some(Duty::Work);
            },
            None => {
                self.duty = Some(Duty::Wait);
            },
        }
    }
}

/// The task after a teammate that worked on it is gone.
pub open spec fn given_up(t: TaskV, name: Seq<char>) -> TaskV {
    if t.status == TaskStatus::InProgress && t.owner == Some(name) {
        TaskV { status: TaskStatus::Pending, owner: None, ..t }
    } else {
        t
    }
}

/// Gives up the task of a teammate that is gone: where the teammate was at work on it, it is pending
/// again and has no owner.
pub fn release_assignment(store: &mut TaskStore, task_id: &str, name: &str)
    ensures
        final(store)@ == match find_task(old(store)@, task_id@) {
            Some(t) => if given_up(t, name@) == t {
                old(store)@
            } else {
                replaced(old(store)@, given_up(t, name@))
            },
            None => old(store)@,
        },
{
    match store.load(task_id) {
        Some(task) => {
            if task.can_complete(name) {
                let mut free = task.dup();
                free.status = TaskStatus::Pending;
                free.owner = None;
                assert(free@ == given_up(task@, name@));
                store.save(&free);
            }
        },
        None => {},
    }
}

// ---- laws ----

proof fn lemma_fresh_name_keeps_distinct(
    roster: Seq<(Seq<char>, TeammateStatus)>,
    name: Seq<char>,
    status: TeammateStatus,
)
    requires
        distinct_names(roster),
        !taken(roster, name),
    ensures
        distinct_names(roster.push((name, status))),
{
    let after = roster.push((name, status));
    assert forall|i: int, j: int| 0 <= i < j < after.len() implies !same_ignoring_ascii_case(
        (#[trigger] after[i]).0,
        (#[trigger] after[j]).0,
    ) by {
        assert(after[i] == roster[i]);
        if j < roster.len() {
            assert(after[j] == roster[j]);
        } else {
            assert(!same_ignoring_ascii_case(roster[i].0, name));
        }
    }
}

/// A teammate that is told to end ends, whatever else the turn or the mailbox has brought; one that is
/// not told goes on.
pub proof fn lemma_ends_when_told(gate: GateStatus, answer: Option<String>, r: WorkStep, grew: bool)
    ensures
        turn_followed(true, gate, answer, r) ==> duty_of(r.phase) is None,
        turn_followed(false, gate, answer, r) ==> duty_of(r.phase) == Some(Duty::Wait),
        duty_after_mail(true, true, grew) is None,
        duty_after_mail(true, false, grew) is Some,
        duty_after_mail(false, false, grew) == Some(Duty::Claim),
{
}

/// A teammate that has been given a status has it, and the others keep theirs.
pub proof fn lemma_status_is_kept(
    roster: Seq<(Seq<char>, TeammateStatus)>,
    name: Seq<char>,
    status: TeammateStatus,
    other: Seq<char>,
)
    requires
        other != name,
    ensures
        status_of(with_status(roster, name, status), name) == Some(status),
        status_of(with_status(roster, name, status), other) == status_of(roster, other),
{
    lemma_status_pushed(roster, name, status, name);
    lemma_status_pushed(roster, name, status, other);
    lemma_status_mapped(roster, name, status, name);
    lemma_status_mapped(roster, name, status, other);
}

proof fn lemma_status_pushed(
    roster: Seq<(Seq<char>, TeammateStatus)>,
    name: Seq<char>,
    status: TeammateStatus,
    asked: Seq<char>,
)
    ensures
        status_of(roster.push((name, status)), asked) == if status_of(roster, asked) is Some {
            status_of(roster, asked)
        } else if asked == name {
            Some(status)
        } else {
            None
        },
    decreases roster.len(),
{
    let after = roster.push((name, status));
    if roster.len() > 0 {
        assert(after.skip(1) =~= roster.skip(1).push((name, status)));
        lemma_status_pushed(roster.skip(1), name, status, asked);
    } else {
        assert(after.skip(1) =~= Seq::empty());
        assert(status_of(after.skip(1), asked) is None);
    }
}

proof fn lemma_status_mapped(
    roster: Seq<(Seq<char>, TeammateStatus)>,
    name: Seq<char>,
    status: TeammateStatus,
    asked: Seq<char>,
)
    ensures
        status_of(changed(roster, name, status), asked) == if asked == name && status_of(
            roster,
            name,
        ) is Some {
            Some(status)
        } else {
            status_of(roster, asked)
        },
    decreases roster.len(),
{
    if roster.len() > 0 {
        assert(changed(roster, name, status).skip(1) =~= changed(roster.skip(1), name, status));
        lemma_status_mapped(roster.skip(1), name, status, asked);
    }
}

/// A start that fails leaves no teammate behind, and one that succeeds takes the name: a second start
/// under the same name, in any case, is refused.
pub proof fn lemma_name_taken_once(
    roster: Seq<(Seq<char>, TeammateStatus)>,
    name: Seq<char>,
    again: Seq<char>,
    role: Seq<char>,
    claim: Option<Seq<char>>,
    require_plan: bool,
)
    requires
        same_ignoring_ascii_case(name, again),
    ensures
        ({
            let first = spawned(roster, name, role, true, claim, require_plan);
            &&& !first.2 ==> first.0 == roster
            &&& first.2 ==> !spawned(first.0, again, role, true, claim, require_plan).2
        }),
{
    let first = spawned(roster, name, role, true, claim, require_plan);
    if first.2 {
        assert(first.0[roster.len() as int].0 == name);
        assert(taken(first.0, again));
    }
}

/// The names of the runtime are refused in any case.
pub proof fn lemma_reserved_in_any_case(
    roster: Seq<(Seq<char>, TeammateStatus)>,
    name: Seq<char>,
    reserved: Seq<char>,
    has_team: bool,
)
    requires
        reserved == "lead"@ || reserved == "agent"@,
        same_ignoring_ascii_case(name, reserved),
    ensures
        spawn_refusal(roster, name, has_team) is Some,
{
}

} // verus!

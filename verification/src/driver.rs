//! The order of an agent's work: what is done after what.
//!
//! A turn collects the results of background tasks, takes the scheduled prompts that are due, reads
//! the mailbox of a teammate, prepares the conversation and calls the model. Its tool calls are run,
//! or the hooks and the goal are asked whether the loop may end. [`LoopState::next`] takes what has
//! happened, keeps the conversation, and says what is to be done now.

use vstd::prelude::*;

use crate::agent::{
    answered, calls_in, delivered, delivered_line, goal_message, injected, loop_ok, released,
    requests_view, response_lines, run_outputs, run_reminders, scheduled_message, shown_lines,
    tool_requests,
    turn_begun, wants_tools, wants_tools_v, LoopOutcome, LoopState, LoopV, NextStep, ToolRequest,
    ToolRun,
};
use crate::background_tasks::manager::notice_blocks;
use crate::compact::{all_answered, calls_tool, gives_output, paired, MAX_REACTIVE_RETRIES};
use crate::cron_scheduler::{jobs_view, CronJob, CronJobV};
use crate::domain::message::{
    messages_view, user_text_v, BlockV, Message, MessageV, Role, Usage,
};
use crate::error::{bridged, AgentError};
use crate::goal::{GoalAction, StopDecision};
use crate::hooks::{post_tool_messages, text_blocks};
use crate::json::JsonV;
use crate::providers::CallResult;
use crate::text::texts;
use crate::tools::AgentKind;

verus! {

broadcast use vstd::string::group_string_axioms;

/// What an agent has.
#[derive(Clone, Copy, Debug, PartialEq, Eq, Structural)]
pub struct LoopParts {
    pub kind: AgentKind,
    pub has_cron: bool,
    pub has_team: bool,
    pub has_goal: bool,
}

/// What is to be done.
#[derive(Clone, Copy, Debug, PartialEq, Eq, Structural)]
pub enum Ask {
    /// Collect the results of background tasks.
    Collect,
    /// Take the scheduled prompts that are due.
    TakeJobs,
    /// Read the mailbox.
    ReadInbox,
    /// Prepare the conversation for the model.
    Prepare,
    /// Call the model.
    Call,
    /// Compact the conversation, which is too long for the model.
    Compact,
    /// Run the tool calls.
    RunTools,
    /// Ask the hooks whether the loop may end.
    AskStop,
    /// Ask whether the goal is met.
    AskGoal,
    /// Extract what is worth remembering.
    Remember,
    /// Consolidate what is remembered.
    Consolidate,
}

/// What has happened.
#[derive(Debug)]
pub enum LoopEvent {
    /// The loop begins.
    Begin,
    /// The results of background tasks.
    Collected(Vec<String>),
    /// The scheduled prompts that are due.
    Jobs(Vec<CronJob>),
    /// What the mailbox added to the conversation, and whether it told the agent to end.
    Inbox { added: Vec<Message>, stop: bool },
    /// The conversation is prepared.
    Prepared(Vec<Message>),
    /// The conversation could not be prepared or compacted, and is left like this.
    Broken { messages: Vec<Message>, error: AgentError },
    /// The model call came back.
    Returned(CallResult),
    /// The conversation is compacted.
    Compacted(Vec<Message>),
    /// The tool calls have been run.
    ToolsRun(Vec<ToolRun>),
    /// The answer of the hooks: a message that keeps the loop going, or none.
    StopAnswer(Option<String>),
    /// The decision about the goal.
    GoalDecision(StopDecision),
    /// So many records were kept of what is worth remembering.
    Remembered(usize),
    /// What is remembered was consolidated, or did not need it.
    Consolidated,
}

/// How the loop ends.
#[derive(Debug)]
pub enum LoopEnd {
    Outcome(LoopOutcome),
    Error(AgentError),
}

/// What follows from what has happened.
#[derive(Debug)]
pub struct LoopAction {
    /// What is to be done next.
    pub ask: Option<Ask>,
    /// What is shown.
    pub lines: Vec<String>,
    /// The tool calls that are to be run.
    pub calls: Vec<ToolRequest>,
    /// What the model call used.
    pub usage: Option<Usage>,
    /// The scheduled jobs that are acknowledged.
    pub ack: Vec<CronJob>,
    /// The scheduled jobs that go back to the scheduler.
    pub restore: Vec<CronJob>,
    /// How the loop ends, where it does.
    pub end: Option<LoopEnd>,
}

/// What follows from what has happened, and the state after it.
#[verifier::ext_equal]
pub struct Reaction {
    pub state: LoopV,
    pub ask: Option<Ask>,
    pub lines: Seq<Seq<char>>,
    pub calls: Seq<(Seq<char>, Seq<char>, JsonV)>,
    pub usage: Option<Usage>,
    pub ack: Seq<CronJobV>,
    pub restore: Seq<CronJobV>,
    pub end: Option<LoopEnd>,
}

/// The action and the state that it leaves.
pub open spec fn acted(state: LoopV, a: LoopAction) -> Reaction {
    Reaction {
        state,
        ask: a.ask,
        lines: texts(a.lines@),
        calls: requests_view(a.calls@),
        usage: a.usage,
        ack: jobs_view(a.ack@),
        restore: jobs_view(a.restore@),
        end: a.end,
    }
}

/// Something is to be done, and nothing else.
pub open spec fn asks(state: LoopV, ask: Ask) -> Reaction {
    Reaction {
        state,
        ask: Some(ask),
        lines: Seq::empty(),
        calls: Seq::empty(),
        usage: None,
        ack: Seq::empty(),
        restore: Seq::empty(),
        end: None,
    }
}

/// The loop ends.
pub open spec fn ends(state: LoopV, restore: Seq<CronJobV>, end: LoopEnd) -> Reaction {
    Reaction {
        state,
        ask: None,
        lines: Seq::empty(),
        calls: Seq::empty(),
        usage: None,
        ack: Seq::empty(),
        restore,
        end: Some(end),
    }
}

/// What is done first in a turn.
pub open spec fn first_ask(p: LoopParts) -> Ask {
    if p.kind == AgentKind::Lead {
        Ask::Collect
    } else {
        ask_after_collecting(p)
    }
}

/// What is done once the results of background tasks are there.
pub open spec fn ask_after_collecting(p: LoopParts) -> Ask {
    if p.has_cron {
        Ask::TakeJobs
    } else {
        ask_after_jobs(p)
    }
}

/// What is done once the scheduled prompts are there.
pub open spec fn ask_after_jobs(p: LoopParts) -> Ask {
    if p.kind == AgentKind::Teammate && p.has_team {
        Ask::ReadInbox
    } else {
        Ask::Prepare
    }
}

/// A turn begins, or none is left.
pub open spec fn starts(s: LoopV, p: LoopParts) -> Reaction {
    if s.turn < s.max_turns {
        asks(turn_begun(s), first_ask(p))
    } else {
        ends(s, Seq::empty(), LoopEnd::Outcome(LoopOutcome::MaxTurnsReached))
    }
}

/// What follows from the result of a model call.
pub open spec fn after_call(s: LoopV, result: CallResult) -> Reaction {
    match result {
        CallResult::Success(m) => Reaction {
            lines: shown_lines(m@.content),
            calls: if wants_tools_v(m@) {
                calls_in(m@.content)
            } else {
                Seq::empty()
            },
            usage: m.usage,
            ack: s.waiting,
            ..asks(
                answered(s, m@.content),
                if wants_tools_v(m@) {
                    Ask::RunTools
                } else {
                    Ask::AskStop
                },
            )
        },
        CallResult::PromptTooLong(e) => if s.retries < MAX_REACTIVE_RETRIES {
            asks(LoopV { retries: s.retries + 1, ..s }, Ask::Compact)
        } else {
            ends(released(s), s.waiting, LoopEnd::Error(bridged(e)))
        },
        CallResult::Failure(e) => ends(released(s), s.waiting, LoopEnd::Error(bridged(e))),
        CallResult::Cancelled => ends(
            released(s),
            s.waiting,
            LoopEnd::Outcome(LoopOutcome::Cancelled),
        ),
    }
}

/// The conversation is `messages`.
pub open spec fn holding(s: LoopV, messages: Vec<Message>) -> LoopV {
    LoopV { messages: messages_view(messages@), ..s }
}

/// What follows from what has happened.
pub open spec fn reaction(s: LoopV, p: LoopParts, e: LoopEvent) -> Reaction {
    match e {
        LoopEvent::Begin => starts(s, p),
        LoopEvent::Collected(notes) => asks(injected(s, texts(notes@)), ask_after_collecting(p)),
        LoopEvent::Jobs(jobs) => Reaction {
            lines: jobs_view(jobs@).map_values(|j: CronJobV| delivered_line(j)),
            ..asks(delivered(s, jobs_view(jobs@)), ask_after_jobs(p))
        },
        LoopEvent::Inbox { added, stop } => {
            let after = LoopV { messages: s.messages + messages_view(added@), ..s };
            if stop {
                ends(after, Seq::empty(), LoopEnd::Outcome(LoopOutcome::Completed))
            } else {
                asks(after, Ask::Prepare)
            }
        },
        LoopEvent::Prepared(messages) => asks(holding(s, messages), Ask::Call),
        LoopEvent::Broken { messages, error } => ends(
            holding(s, messages),
            Seq::empty(),
            LoopEnd::Error(error),
        ),
        LoopEvent::Returned(result) => after_call(s, result),
        LoopEvent::Compacted(messages) => starts(holding(s, messages), p),
        LoopEvent::ToolsRun(runs) => starts(
            LoopV {
                messages: s.messages + post_tool_messages(
                    run_outputs(runs@),
                    run_reminders(runs@),
                ),
                ..s
            },
            p,
        ),
        LoopEvent::StopAnswer(Some(force)) => starts(
            LoopV { messages: s.messages.push(user_text_v(force@)), ..s },
            p,
        ),
        LoopEvent::StopAnswer(None) => asks(
            s,
            if p.has_goal {
                Ask::AskGoal
            } else {
                Ask::Remember
            },
        ),
        LoopEvent::GoalDecision(d) => if d.action == GoalAction::Block {
            starts(LoopV { messages: s.messages.push(goal_message(d@)), ..s }, p)
        } else {
            asks(s, Ask::Remember)
        },
        LoopEvent::Remembered(stored) => if stored > 0 {
            asks(s, Ask::Consolidate)
        } else {
            ends(s, Seq::empty(), LoopEnd::Outcome(LoopOutcome::Completed))
        },
        LoopEvent::Consolidated => ends(
            s,
            Seq::empty(),
            LoopEnd::Outcome(LoopOutcome::Completed),
        ),
    }
}

fn asking(ask: Ask) -> (r: LoopAction)
    ensures
        forall|s: LoopV| acted(s, r) == #[trigger] asks(s, ask),
{
    let r = LoopAction {
        ask: Some(ask),
        lines: Vec::new(),
        calls: Vec::new(),
        usage: None,
        ack: Vec::new(),
        restore: Vec::new(),
        end: None,
    };
    assert(texts(r.lines@) =~= Seq::empty());
    assert(requests_view(r.calls@) =~= Seq::empty());
    assert(jobs_view(r.ack@) =~= Seq::empty());
    assert(jobs_view(r.restore@) =~= Seq::empty());
    r
}

fn ending(restore: Vec<CronJob>, end: LoopEnd) -> (r: LoopAction)
    ensures
        forall|s: LoopV| acted(s, r) == #[trigger] ends(s, jobs_view(restore@), end),
{
    let r = LoopAction {
        ask: None,
        lines: Vec::new(),
        calls: Vec::new(),
        usage: None,
        ack: Vec::new(),
        restore,
        end: Some(end),
    };
    assert(texts(r.lines@) =~= Seq::empty());
    assert(requests_view(r.calls@) =~= Seq::empty());
    assert(jobs_view(r.ack@) =~= Seq::empty());
    r
}

fn finishing(outcome: LoopOutcome) -> (r: LoopAction)
    ensures
        forall|s: LoopV|
            acted(s, r) == #[trigger] ends(s, Seq::empty(), LoopEnd::Outcome(outcome)),
{
    let none: Vec<CronJob> = Vec::new();
    assert(jobs_view(none@) =~= Seq::empty());
    ending(none, LoopEnd::Outcome(outcome))
}

impl LoopParts {
    fn first(&self) -> (r: Ask)
        ensures
            r == first_ask(*self),
    {
        if self.kind == AgentKind::Lead {
            Ask::Collect
        } else {
            self.after_collecting()
        }
    }

    fn after_collecting(&self) -> (r: Ask)
        ensures
            r == ask_after_collecting(*self),
    {
        if self.has_cron {
            Ask::TakeJobs
        } else {
            self.after_jobs()
        }
    }

    fn after_jobs(&self) -> (r: Ask)
        ensures
            r == ask_after_jobs(*self),
    {
        if self.kind == AgentKind::Teammate && self.has_team {
            Ask::ReadInbox
        } else {
            Ask::Prepare
        }
    }
}

impl LoopState {
    fn start(&mut self, parts: &LoopParts) -> (r: LoopAction)
        ensures
            acted(final(self)@, r) == starts(old(self)@, *parts),
            loop_ok(old(self)@) ==> loop_ok(final(self)@),
    {
        match self.begin_turn() {
            Some(outcome) => finishing(outcome),
            None => asking(parts.first()),
        }
    }

    fn returned(&mut self, result: CallResult) -> (r: LoopAction)
        ensures
            acted(final(self)@, r) == after_call(old(self)@, result),
            loop_ok(old(self)@) ==> loop_ok(final(self)@),
    {
        match self.call_returned(result) {
            NextStep::Answered { response, ack } => {
                let tools = wants_tools(&response);
                let mut action = asking(
                    if tools {
                        Ask::RunTools
                    } else {
                        Ask::AskStop
                    },
                );
                action.lines = response_lines(response.content.as_slice());
                if tools {
                    action.calls = tool_requests(response.content.as_slice());
                }
                action.usage = response.usage;
                action.ack = ack;
                assert(asks(self@, Ask::RunTools).calls =~= Seq::empty());
                assert(asks(self@, Ask::AskStop).calls =~= Seq::empty());
                action
            },
            NextStep::Compact => asking(Ask::Compact),
            NextStep::Failed { error, restore } => ending(restore, LoopEnd::Error(error)),
            NextStep::Cancelled { restore } => ending(
                restore,
                LoopEnd::Outcome(LoopOutcome::Cancelled),
            ),
        }
    }

    /// What follows from what has happened.
    pub fn next(&mut self, parts: &LoopParts, event: LoopEvent) -> (r: LoopAction)
        ensures
            acted(final(self)@, r) == reaction(old(self)@, *parts, event),
            loop_ok(old(self)@) ==> loop_ok(final(self)@),
    {
        match event {
            LoopEvent::Begin => self.start(parts),
            LoopEvent::Collected(notes) => {
                self.inject(notes);
                asking(parts.after_collecting())
            },
            LoopEvent::Jobs(jobs) => {
                let lines = self.deliver(jobs);
                let mut action = asking(parts.after_jobs());
                action.lines = lines;
                action
            },
            LoopEvent::Inbox { added, stop } => {
                self.extend(added);
                if stop {
                    finishing(LoopOutcome::Completed)
                } else {
                    asking(Ask::Prepare)
                }
            },
            LoopEvent::Prepared(messages) => {
                self.set_messages(messages);
                asking(Ask::Call)
            },
            LoopEvent::Broken { messages, error } => {
                self.set_messages(messages);
                let none: Vec<CronJob> = Vec::new();
                assert(jobs_view(none@) =~= Seq::empty());
                ending(none, LoopEnd::Error(error))
            },
            LoopEvent::Returned(result) => self.returned(result),
            LoopEvent::Compacted(messages) => {
                self.set_messages(messages);
                self.start(parts)
            },
            LoopEvent::ToolsRun(runs) => {
                self.tools_done(runs.as_slice());
                self.start(parts)
            },
            LoopEvent::StopAnswer(force) => {
                if self.stop_asked(force) {
                    self.start(parts)
                } else if parts.has_goal {
                    asking(Ask::AskGoal)
                } else {
                    asking(Ask::Remember)
                }
            },
            LoopEvent::GoalDecision(decision) => {
                if self.goal_decided(Some(decision)) {
                    self.start(parts)
                } else {
                    asking(Ask::Remember)
                }
            },
            LoopEvent::Remembered(stored) => if stored > 0 {
                asking(Ask::Consolidate)
            } else {
                finishing(LoopOutcome::Completed)
            },
            LoopEvent::Consolidated => finishing(LoopOutcome::Completed),
        }
    }
}

// ---- laws ----

/// The model is called only on a prepared conversation, and is called on each.
pub proof fn lemma_called_when_prepared(s: LoopV, p: LoopParts, e: LoopEvent)
    ensures
        reaction(s, p, e).ask == Some(Ask::Call) <==> e is Prepared,
{
}

/// Either something is to be done or the loop ends, never both.
pub proof fn lemma_goes_on_or_ends(s: LoopV, p: LoopParts, e: LoopEvent)
    ensures
        reaction(s, p, e).ask is Some <==> reaction(s, p, e).end is None,
{
}

/// No turn begins once all are used up, whatever happens.
pub proof fn lemma_turns_bounded(s: LoopV, p: LoopParts, e: LoopEvent)
    requires
        loop_ok(s),
    ensures
        loop_ok(reaction(s, p, e).state),
        s.turn <= reaction(s, p, e).state.turn <= s.turn + 1,
        s.turn == s.max_turns ==> reaction(s, p, e).state.turn == s.turn,
{
}

/// Scheduled jobs that were delivered are acknowledged when the model has answered, and go back to
/// the scheduler when the call failed or was interrupted, unless the call is to be tried again.
pub proof fn lemma_jobs_acknowledged_or_restored(s: LoopV, p: LoopParts, result: CallResult)
    ensures
        ({
            let r = reaction(s, p, LoopEvent::Returned(result));
            &&& r.ask != Some(Ask::Compact) ==> r.ack + r.restore == s.waiting
            &&& r.ack.len() == 0 || r.restore.len() == 0
        }),
{
    let r = reaction(s, p, LoopEvent::Returned(result));
    if r.ask != Some(Ask::Compact) {
        assert(r.ack + r.restore =~= s.waiting);
    }
}

/// Memory is extracted only at the end of the work: when the hooks let the loop end, and the goal, if
/// there is one, does not keep it going.
pub proof fn lemma_remembers_at_the_end(s: LoopV, p: LoopParts, e: LoopEvent)
    requires
        reaction(s, p, e).ask == Some(Ask::Remember),
    ensures
        (e matches LoopEvent::StopAnswer(None) && !p.has_goal) || (
        e matches LoopEvent::GoalDecision(d) && d.action != GoalAction::Block),
{
}

/// What is remembered is consolidated only where something new was kept, and then the loop ends.
pub proof fn lemma_consolidates_what_is_new(s: LoopV, p: LoopParts, e: LoopEvent)
    ensures
        reaction(s, p, e).ask == Some(Ask::Consolidate) <==> (e matches LoopEvent::Remembered(n)
            && n > 0),
        e == LoopEvent::Remembered(0) || e is Consolidated ==> reaction(s, p, e).end == Some(
            LoopEnd::Outcome(LoopOutcome::Completed),
        ),
{
}

/// The event says what came of what was to be done.
pub open spec fn answers(ask: Ask, e: LoopEvent) -> bool {
    match ask {
        Ask::Collect => e is Collected,
        Ask::TakeJobs => e is Jobs,
        Ask::ReadInbox => e is Inbox,
        Ask::Prepare => e is Prepared || e is Broken,
        Ask::Call => e is Returned,
        Ask::Compact => e is Compacted || e is Broken,
        Ask::RunTools => e is ToolsRun,
        Ask::AskStop => e is StopAnswer,
        Ask::AskGoal => e is GoalDecision,
        Ask::Remember => e is Remembered,
        Ask::Consolidate => e is Consolidated,
    }
}

/// How many steps are left at most: those of the turns to come, and those of this one.
pub open spec fn steps_left(s: LoopV, ask: Ask) -> int {
    let in_turn: int = match ask {
        Ask::Collect => 10,
        Ask::TakeJobs => 9,
        Ask::ReadInbox => 8,
        Ask::Prepare => 7,
        Ask::Call => 6,
        Ask::Compact => 5,
        Ask::RunTools => 5,
        Ask::AskStop => 4,
        Ask::AskGoal => 3,
        Ask::Remember => 2,
        Ask::Consolidate => 1,
    };
    11 * (s.max_turns - s.turn) + in_turn
}

/// The loop ends, whatever the model, the hooks and the goal answer: every step leaves fewer steps.
pub proof fn lemma_loop_ends(s: LoopV, p: LoopParts, ask: Ask, e: LoopEvent)
    requires
        loop_ok(s),
        answers(ask, e),
    ensures
        steps_left(s, ask) > 0,
        match reaction(s, p, e).ask {
            Some(next) => steps_left(reaction(s, p, e).state, next) < steps_left(s, ask),
            None => reaction(s, p, e).end is Some,
        },
{
}

proof fn lemma_plain_added(msgs: Seq<MessageV>, added: Seq<MessageV>)
    requires
        paired(msgs),
        all_answered(msgs),
        forall|i: int|
            0 <= i < added.len() ==> !gives_output(#[trigger] added[i]) && !calls_tool(added[i]),
    ensures
        paired(msgs + added),
        all_answered(msgs + added),
{
    let out = msgs + added;
    let n = msgs.len();
    assert forall|i: int| 0 <= i < out.len() && #[trigger] gives_output(out[i]) implies i > 0
        && calls_tool(out[i - 1]) by {
        if i < n {
            assert(out[i] == msgs[i]);
            assert(out[i - 1] == msgs[i - 1]);
        } else {
            assert(out[i] == added[i - n]);
        }
    }
    assert forall|i: int| 0 <= i < out.len() - 1 && #[trigger] calls_tool(out[i]) implies
        gives_output(out[i + 1]) by {
        if i < n - 1 {
            assert(out[i] == msgs[i]);
            assert(out[i + 1] == msgs[i + 1]);
        } else if i == n - 1 {
            assert(out[i] == msgs.last());
        } else {
            assert(out[i] == added[i - n]);
        }
    }
    if added.len() > 0 {
        assert(out.last() == added[added.len() - 1]);
    } else {
        assert(out =~= msgs);
    }
}

proof fn lemma_calls_in(blocks: Seq<BlockV>)
    ensures
        calls_in(blocks).len() > 0 <==> exists|i: int|
            0 <= i < blocks.len() && (#[trigger] blocks[i]) is ToolCall,
    decreases blocks.len(),
{
    if blocks.len() > 0 {
        let rest = blocks.drop_last();
        lemma_calls_in(rest);
        if blocks.last() is ToolCall {
            assert(blocks[blocks.len() - 1] is ToolCall);
        }
        if exists|i: int| 0 <= i < rest.len() && (#[trigger] rest[i]) is ToolCall {
            let i = choose|i: int| 0 <= i < rest.len() && (#[trigger] rest[i]) is ToolCall;
            assert(blocks[i] is ToolCall);
        }
        if exists|i: int| 0 <= i < blocks.len() && (#[trigger] blocks[i]) is ToolCall {
            let i = choose|i: int| 0 <= i < blocks.len() && (#[trigger] blocks[i]) is ToolCall;
            if i < rest.len() {
                assert(rest[i] is ToolCall);
            }
        }
    }
}

proof fn lemma_plain_text(text: Seq<char>)
    ensures
        !gives_output(user_text_v(text)),
        !calls_tool(user_text_v(text)),
{
}

/// What has happened keeps calls and outputs together: a conversation that was prepared or compacted
/// does, mail holds neither, each tool call was run, and a response that calls tools says so.
pub open spec fn orderly(s: LoopV, e: LoopEvent) -> bool {
    match e {
        LoopEvent::Inbox { added, .. } => forall|i: int|
            0 <= i < added@.len() ==> !gives_output(#[trigger] messages_view(added@)[i])
                && !calls_tool(messages_view(added@)[i]),
        LoopEvent::Prepared(m) => paired(messages_view(m@)) && all_answered(messages_view(m@)),
        LoopEvent::Compacted(m) => paired(messages_view(m@)) && all_answered(messages_view(m@)),
        LoopEvent::Broken { messages, .. } => paired(messages_view(messages@)),
        LoopEvent::Returned(CallResult::Success(m)) => calls_in(m@.content).len() > 0
            ==> wants_tools_v(m@),
        LoopEvent::ToolsRun(runs) => s.messages.len() > 0 && s.messages.last().role
            == Role::Assistant && runs@.len() == calls_in(s.messages.last().content).len(),
        _ => true,
    }
}

proof fn lemma_outputs_added(msgs: Seq<MessageV>, runs: Seq<ToolRun>)
    requires
        paired(msgs),
        msgs.len() > 0,
        msgs.last().role == Role::Assistant,
        runs.len() == calls_in(msgs.last().content).len(),
    ensures
        paired(msgs + post_tool_messages(run_outputs(runs), run_reminders(runs))),
        all_answered(msgs + post_tool_messages(run_outputs(runs), run_reminders(runs))),
{
    let outputs = run_outputs(runs);
    let reminders = run_reminders(runs);
    let added = post_tool_messages(outputs, reminders);
    lemma_calls_in(msgs.last().content);
    let n = msgs.len();
    let out = msgs + added;
    if runs.len() == 0 {
        assert(!calls_tool(msgs.last()));
        assert forall|i: int| 0 <= i < added.len() implies !gives_output(#[trigger] added[i])
            && !calls_tool(added[i]) by {
            if reminders.len() > 0 {
                assert(added[i].content == text_blocks(reminders));
            } else {
                lemma_plain_text("(no tool calls to execute)"@);
            }
        }
        lemma_plain_added(msgs, added);
    } else {
        assert(calls_tool(msgs.last()));
        assert(added[0].content == outputs);
        assert(outputs[0] is ToolOutput);
        assert(gives_output(added[0]));
        assert forall|i: int| 1 <= i < added.len() implies !gives_output(#[trigger] added[i])
            && !calls_tool(added[i]) by {
            assert(added[i].content == text_blocks(reminders));
        }
        assert forall|i: int| 0 <= i < out.len() && #[trigger] gives_output(out[i]) implies i > 0
            && calls_tool(out[i - 1]) by {
            if i < n {
                assert(out[i] == msgs[i]);
                assert(out[i - 1] == msgs[i - 1]);
            } else {
                assert(out[i] == added[i - n]);
                if i > n {
                    assert(!gives_output(added[i - n]));
                }
            }
        }
        assert forall|i: int| 0 <= i < out.len() - 1 && #[trigger] calls_tool(out[i]) implies
            gives_output(out[i + 1]) by {
            if i < n - 1 {
                assert(out[i] == msgs[i]);
                assert(out[i + 1] == msgs[i + 1]);
            } else if i == n - 1 {
                assert(out[i + 1] == added[0]);
            } else {
                assert(out[i] == added[i - n]);
                assert(added[i - n].role == Role::User);
            }
        }
        assert(out.last() == added[added.len() - 1]);
        assert(added[added.len() - 1].role == Role::User);
    }
}

proof fn lemma_prefix_paired(msgs: Seq<MessageV>, k: int)
    requires
        paired(msgs),
        0 <= k <= msgs.len(),
    ensures
        paired(msgs.take(k)),
{
    let out = msgs.take(k);
    assert forall|i: int| 0 <= i < out.len() && #[trigger] gives_output(out[i]) implies i > 0
        && calls_tool(out[i - 1]) by {
        assert(out[i] == msgs[i]);
        assert(out[i - 1] == msgs[i - 1]);
    }
    assert forall|i: int| 0 <= i < out.len() - 1 && #[trigger] calls_tool(out[i]) implies
        gives_output(out[i + 1]) by {
        assert(out[i] == msgs[i]);
        assert(out[i + 1] == msgs[i + 1]);
    }
}

/// The loop keeps tool calls and their outputs together. Where no output is orphaned and no call left
/// open, that stays so, whatever is asked and answered; and the model is only called once all its tool
/// calls are answered.
pub proof fn lemma_loop_keeps_pairs(s: LoopV, p: LoopParts, ask: Ask, e: LoopEvent)
    requires
        paired(s.messages),
        ask == Ask::RunTools || all_answered(s.messages),
        answers(ask, e),
        orderly(s, e),
    ensures
        ({
            let r = reaction(s, p, e);
            &&& paired(r.state.messages)
            &&& r.ask is Some && r.ask != Some(Ask::RunTools) ==> all_answered(r.state.messages)
        }),
{
    let r = reaction(s, p, e);
    match e {
        LoopEvent::Begin => {},
        LoopEvent::Collected(notes) => {
            let m = MessageV { role: Role::User, content: notice_blocks(texts(notes@)) };
            assert(!gives_output(m) && !calls_tool(m));
            lemma_plain_added(s.messages, seq![m]);
            assert(s.messages.push(m) =~= s.messages + seq![m]);
        },
        LoopEvent::Jobs(jobs) => {
            let added = jobs_view(jobs@).map_values(|j: CronJobV| scheduled_message(j));
            assert forall|i: int| 0 <= i < added.len() implies !gives_output(#[trigger] added[i])
                && !calls_tool(added[i]) by {
                lemma_plain_text("[Scheduled] "@ + jobs_view(jobs@)[i].prompt);
            }
            lemma_plain_added(s.messages, added);
        },
        LoopEvent::Inbox { added, .. } => {
            lemma_plain_added(s.messages, messages_view(added@));
        },
        LoopEvent::Returned(result) => {
            match result {
                CallResult::Success(m) => {
                    let a = MessageV { role: Role::Assistant, content: m@.content };
                    lemma_calls_in(m@.content);
                    let out = s.messages.push(a);
                    assert(out.last() == a);
                    assert(!gives_output(a));
                    assert forall|i: int|
                        0 <= i < out.len() && #[trigger] gives_output(out[i]) implies i > 0
                        && calls_tool(out[i - 1]) by {
                        assert(out[i] == s.messages[i]);
                        assert(out[i - 1] == s.messages[i - 1]);
                    }
                    assert forall|i: int|
                        0 <= i < out.len() - 1 && #[trigger] calls_tool(out[i]) implies gives_output(
                        out[i + 1],
                    ) by {
                        assert(out[i] == s.messages[i]);
                        if i < s.messages.len() - 1 {
                            assert(out[i + 1] == s.messages[i + 1]);
                        }
                    }
                },
                _ => {
                    if s.scheduled_start < s.messages.len() {
                        lemma_prefix_paired(s.messages, s.scheduled_start as int);
                    }
                },
            }
        },
        LoopEvent::ToolsRun(runs) => {
            lemma_outputs_added(s.messages, runs@);
        },
        LoopEvent::StopAnswer(force) => {
            if let Some(text) = force {
                lemma_plain_text(text@);
                lemma_plain_added(s.messages, seq![user_text_v(text@)]);
                assert(s.messages.push(user_text_v(text@)) =~= s.messages + seq![
                    user_text_v(text@),
                ]);
            }
        },
        LoopEvent::GoalDecision(d) => {
            let m = goal_message(d@);
            assert(!gives_output(m) && !calls_tool(m));
            lemma_plain_added(s.messages, seq![m]);
            assert(s.messages.push(m) =~= s.messages + seq![m]);
        },
        _ => {},
    }
}

} // verus!

//! What the agent's loop hands on: every call to the tools, every output and reminder to the model,
//! and every part of the texts that it makes.

use vstd::prelude::*;

use crate::agent::{
    base_system_text, final_text, gate_reason, goal_message, its_request, last_answer,
    lemma_every_call_requested, run_reminders, shown_block, shown_lines, turn_system_text,
    wants_tools_v, LoopOutcome, LoopV, ToolRun,
};
use crate::compact::MAX_REACTIVE_RETRIES;
use crate::cron_scheduler::{jobs_view, CronJob};
use crate::domain::message::{
    is_call, is_text, its_text, lemma_texts_selected, messages_view, some_text, tells, BlockV,
    Message, MessageV, MessagesResponse, Role,
};
use crate::driver::{after_call, reaction, Ask, LoopEnd, LoopEvent, LoopParts};
use crate::error::{bridged, LlmError};
use crate::goal::{GoalAction, StopDecision};
use crate::memory::laws::lemma_system_tells;
use crate::memory::system_with_memory;
use crate::providers::CallResult;
use crate::select::{
    holds, lemma_holds_each, lemma_holds_itself, lemma_holds_two, lemma_holds_within,
    lemma_selects_nothing, lemma_selects_push, lemma_selects_some, selects,
};
use crate::text::contains;
use crate::tools::AgentKind;

verus! {

broadcast use vstd::string::group_string_axioms;

/// A response joins the conversation as it is. Where it asks for tools, every tool call of it is to be
/// run, once, with its own identifier, name and input and in order; where it does not, none is.
pub proof fn lemma_response_is_acted_on(s: LoopV, m: MessagesResponse)
    ensures
        ({
            let r = after_call(s, CallResult::Success(m));
            &&& r.state.messages == s.messages.push(
                MessageV { role: Role::Assistant, content: m@.content },
            )
            &&& wants_tools_v(m@) ==> r.ask == Some(Ask::RunTools) && selects(
                m@.content,
                r.calls,
                is_call(),
                its_request(),
            )
            &&& !wants_tools_v(m@) ==> r.ask == Some(Ask::AskStop) && r.calls.len() == 0
            &&& r.usage == m.usage
            &&& r.ack == s.waiting
            &&& r.end is None
        }),
{
    lemma_every_call_requested(m@.content);
}

/// The run of a tool brought a reminder.
pub open spec fn reminds() -> spec_fn(ToolRun) -> bool {
    |t: ToolRun| t.reminder is Some
}

/// The reminder of a run.
pub open spec fn its_reminder() -> spec_fn(ToolRun) -> Seq<char> {
    |t: ToolRun| t.reminder->Some_0@
}

/// Every reminder is passed on, whole and in order.
pub proof fn lemma_every_reminder(runs: Seq<ToolRun>)
    ensures
        selects(runs, run_reminders(runs), reminds(), its_reminder()),
    decreases runs.len(),
{
    if runs.len() == 0 {
        lemma_selects_nothing::<ToolRun, Seq<char>>(reminds(), its_reminder());
        assert(runs =~= Seq::<ToolRun>::empty());
    } else {
        let front = runs.drop_last();
        lemma_every_reminder(front);
        lemma_selects_push(front, run_reminders(front), reminds(), its_reminder(), runs.last());
        assert(front.push(runs.last()) =~= runs);
    }
}

/// A message that is made of the reminders: a text for each, whole and in order.
pub open spec fn reminder_message(m: MessageV, runs: Seq<ToolRun>) -> bool {
    m.role == Role::User && exists|ts: Seq<Seq<char>>| #[trigger]
        selects(runs, ts, reminds(), its_reminder()) && ts.len() == m.content.len() && forall|i: int|
            0 <= i < ts.len() ==> #[trigger] m.content[i] == (BlockV::Text { text: ts[i] })
}

/// Once tools were run, the conversation goes on with a user's message that holds the output of every
/// run, in order, whole and under the identifier of its call, and behind it, where there are any, one
/// with every reminder. What was said before stays.
pub proof fn lemma_runs_are_reported(s: LoopV, p: LoopParts, runs: Vec<ToolRun>)
    ensures
        ({
            let out = reaction(s, p, LoopEvent::ToolsRun(runs)).state.messages;
            let n = s.messages.len() as int;
            let some = exists|i: int| 0 <= i < runs@.len() && reminds()(#[trigger] runs@[i]);
            &&& s.messages.is_prefix_of(out)
            &&& runs@.len() > 0 ==> {
                &&& out.len() == n + if some {
                    2int
                } else {
                    1int
                }
                &&& out[n].role == Role::User
                &&& out[n].content.len() == runs@.len()
                &&& forall|i: int|
                    0 <= i < runs@.len() ==> #[trigger] out[n].content[i] == (BlockV::ToolOutput {
                        call_id: runs@[i].call_id@,
                        content: runs@[i].content@,
                    })
                &&& some ==> reminder_message(out[n + 1], runs@)
            }
        }),
{
    let out = reaction(s, p, LoopEvent::ToolsRun(runs)).state.messages;
    let n = s.messages.len() as int;
    assert(out.take(n) =~= s.messages);
    lemma_every_reminder(runs@);
    lemma_selects_some(runs@, run_reminders(runs@), reminds(), its_reminder());
    let ts = run_reminders(runs@);
    if runs@.len() > 0 && ts.len() > 0 {
        let m = out[n + 1];
        assert(m.content == crate::hooks::text_blocks(ts));
        assert(selects(runs@, ts, reminds(), its_reminder()) && ts.len() == m.content.len());
        assert forall|i: int| 0 <= i < ts.len() implies #[trigger] m.content[i] == (BlockV::Text {
            text: ts[i],
        }) by {}
    }
}

/// Every scheduled prompt that comes due is a user's message of its own, whole and in order, behind
/// what was said before.
pub proof fn lemma_jobs_are_delivered(s: LoopV, p: LoopParts, jobs: Vec<CronJob>)
    ensures
        ({
            let r = reaction(s, p, LoopEvent::Jobs(jobs));
            let out = r.state.messages;
            let n = s.messages.len() as int;
            let js = jobs_view(jobs@);
            &&& s.messages.is_prefix_of(out)
            &&& out.len() == n + js.len()
            &&& forall|i: int|
                0 <= i < js.len() ==> {
                    let m = #[trigger] out[n + i];
                    &&& m.role == Role::User
                    &&& m.content.len() == 1
                    &&& m.content[0] is Text
                    &&& js[i].prompt.is_suffix_of(m.content[0]->text)
                }
            &&& r.state.waiting == js
        }),
{
    let out = reaction(s, p, LoopEvent::Jobs(jobs)).state.messages;
    let n = s.messages.len() as int;
    let js = jobs_view(jobs@);
    assert(out.take(n) =~= s.messages);
    assert forall|i: int| 0 <= i < js.len() implies {
        let m = #[trigger] out[n + i];
        &&& m.role == Role::User
        &&& m.content.len() == 1
        &&& m.content[0] is Text
        &&& js[i].prompt.is_suffix_of(m.content[0]->text)
    } by {
        let t = "[Scheduled] "@ + js[i].prompt;
        assert(t.skip(t.len() - js[i].prompt.len()) =~= js[i].prompt);
        assert(t.subrange(t.len() - js[i].prompt.len(), t.len() as int) =~= js[i].prompt);
    }
}

/// A goal that is not reached sends the model on with a message that tells the goal and what the
/// evaluator found missing, each whole; a goal that is settled adds nothing.
pub proof fn lemma_goal_is_told(s: LoopV, p: LoopParts, d: StopDecision)
    ensures
        ({
            let out = reaction(s, p, LoopEvent::GoalDecision(d)).state.messages;
            let n = s.messages.len() as int;
            &&& d.action == GoalAction::Block ==> {
                &&& out.len() == n + 1
                &&& out.drop_last() == s.messages
                &&& out[n].role == Role::User
                &&& out[n].content.len() == 1
                &&& out[n].content[0] is Text
                &&& contains(out[n].content[0]->text, d@.reason)
                &&& d@.condition matches Some(c) ==> holds(
                    out[n].content[0]->text,
                    seq![c, d@.reason],
                )
            }
            &&& d.action != GoalAction::Block ==> out == s.messages
        }),
{
    let out = reaction(s, p, LoopEvent::GoalDecision(d)).state.messages;
    let v = d@;
    if d.action == GoalAction::Block {
        assert(out.drop_last() =~= s.messages);
        let condition = match v.condition {
            Some(c) => c,
            None => Seq::empty(),
        };
        let a = "[Goal still active]\nCondition: "@;
        let z = "\nContinue working and surface the missing evidence."@;
        lemma_holds_two(a, condition, "\nEvaluator: "@, v.reason, z);
        let text = goal_message(v).content[0]->text;
        assert(text =~= a + condition + "\nEvaluator: "@ + v.reason + z);
        lemma_holds_each(text, seq![condition, v.reason], 1);
    }
}

/// The last answer is the content of the latest message of the assistant.
pub proof fn lemma_last_answer(messages: Seq<MessageV>)
    ensures
        forall|k: int|
            0 <= k < messages.len() && (#[trigger] messages[k]).role == Role::Assistant && (forall|
                j: int,
            |
                k < j < messages.len() ==> (#[trigger] messages[j]).role != Role::Assistant)
                ==> last_answer(messages) == messages[k].content,
        (forall|k: int|
            0 <= k < messages.len() ==> (#[trigger] messages[k]).role != Role::Assistant)
            ==> last_answer(messages).len() == 0,
    decreases messages.len(),
{
    if messages.len() > 0 && messages.last().role != Role::Assistant {
        let front = messages.drop_last();
        lemma_last_answer(front);
        assert forall|k: int| 0 <= k < messages.len() && (#[trigger] messages[k]).role
            == Role::Assistant && (forall|j: int|
            k < j < messages.len() ==> (#[trigger] messages[j]).role != Role::Assistant) implies last_answer(
        messages) == messages[k].content by {
            assert(front[k] == messages[k]);
            assert forall|j: int| k < j < front.len() implies (#[trigger] front[j]).role
                != Role::Assistant by {
                assert(front[j] == messages[j]);
            }
        }
        if forall|k: int|
            0 <= k < messages.len() ==> (#[trigger] messages[k]).role != Role::Assistant {
            assert forall|k: int| 0 <= k < front.len() implies (#[trigger] front[k]).role
                != Role::Assistant by {
                assert(front[k] == messages[k]);
            }
        }
    } else if messages.len() > 0 {
        let n = messages.len() - 1;
        assert(messages[n].role == Role::Assistant);
    }
}

/// The final text is all the text of the answer, one block per line; there is none only where the
/// answer has no text.
pub proof fn lemma_final_text(content: Seq<BlockV>)
    ensures
        final_text(content) is Some <==> some_text(content),
        final_text(content) matches Some(t) ==> tells(t, content),
{
    lemma_texts_selected(content);
    lemma_selects_some(content, crate::domain::message::block_texts(content), is_text(), its_text());
    assert(some_text(content) <==> exists|k: int|
        0 <= k < content.len() && is_text()(#[trigger] content[k]));
}

/// The system prompt tells where the agent works and on which system, and the whole catalog of skills,
/// where there is one.
pub proof fn lemma_base_system_tells(catalog: Seq<char>, workdir: Seq<char>, os: Seq<char>)
    ensures
        holds(base_system_text(catalog, workdir, os), seq![workdir, os]),
        catalog.len() > 0 ==> holds(
            base_system_text(catalog, workdir, os),
            seq![workdir, os, catalog],
        ),
{
    let a = "You are a coding agent at "@;
    let c =
        ". Before starting any multi-step task, use todo_write to plan your steps. Update status as you go. You can use tools as needed."@;
    let s1 = "\n\nSkills available:\n"@;
    let s2 = "\n\nUse load_skill to read the full instructions when a skill applies."@;
    let z =
        "\n\nWhen you run a verification command, write the command and its result into the conversation so an independent evaluator can check completion."@;
    let out = base_system_text(catalog, workdir, os);
    if catalog.len() == 0 {
        lemma_holds_two(a, workdir, " on "@, os, c + z);
        assert(out =~= a + workdir + " on "@ + os + (c + z));
    } else {
        lemma_holds_two(a, workdir, " on "@, os, c + s1 + catalog + s2 + z);
        assert(out =~= a + workdir + " on "@ + os + (c + s1 + catalog + s2 + z));
        let e = Seq::<char>::empty();
        crate::select::lemma_holds_three(a, workdir, " on "@, os, c + s1, catalog, s2 + z);
        assert(out =~= a + workdir + " on "@ + os + (c + s1) + catalog + (s2 + z));
    }
}

/// The prompt of a turn begins with the base prompt and tells the time and what the tool servers say,
/// and behind that the memory, all of it whole.
pub proof fn lemma_turn_system_tells(
    base: Seq<char>,
    time: Seq<char>,
    mcp: Seq<char>,
    index: Seq<char>,
    recalled: Seq<char>,
)
    ensures
        ({
            let out = turn_system_text(base, time, mcp, index, recalled);
            &&& base.is_prefix_of(out)
            &&& exists|front: Seq<char>| #[trigger]
                front.is_prefix_of(out) && holds(front, seq![base, time]) && (mcp.len() > 0
                    ==> mcp.is_suffix_of(front)) && (index.len() > 0 && recalled.len() > 0 ==> holds(
                    out,
                    seq![front, index, recalled],
                )) && (index.len() > 0 && recalled.len() == 0 ==> holds(out, seq![front, index]))
                    && (index.len() == 0 && recalled.len() > 0 ==> holds(
                    out,
                    seq![front, recalled],
                ))
        }),
{
    let timed = base + "\n\nCurrent time: "@ + time;
    let front = if mcp.len() == 0 {
        timed
    } else {
        timed + "\n\n"@ + mcp
    };
    let out = turn_system_text(base, time, mcp, index, recalled);
    let e = Seq::<char>::empty();
    lemma_system_tells(front, index, recalled);
    assert(out == system_with_memory(front, index, recalled));
    if mcp.len() == 0 {
        lemma_holds_two(e, base, "\n\nCurrent time: "@, time, e);
        assert(e + base + "\n\nCurrent time: "@ + time + e =~= front);
    } else {
        lemma_holds_two(e, base, "\n\nCurrent time: "@, time, "\n\n"@ + mcp);
        assert(e + base + "\n\nCurrent time: "@ + time + ("\n\n"@ + mcp) =~= front);
        assert(front.subrange(front.len() - mcp.len(), front.len() as int) =~= mcp);
    }
    assert(out.take(base.len() as int) =~= base) by {
        assert(front.take(base.len() as int) =~= base);
        assert(out.take(front.len() as int) =~= front);
        assert(out.take(front.len() as int).take(base.len() as int) =~= out.take(
            base.len() as int,
        ));
    }
    assert(front.is_prefix_of(out));
}

/// The user sees every text of a response whole, and the name of every tool that it calls, in order.
pub proof fn lemma_response_is_shown(content: Seq<BlockV>, k: int)
    requires
        0 <= k < content.len(),
    ensures
        content[k] is Text ==> shown_lines(content).contains(content[k]->text),
        content[k] is ToolCall ==> exists|j: int|
            0 <= j < shown_lines(content).len() && content[k]->name.is_suffix_of(
                #[trigger] shown_lines(content)[j],
            ),
    decreases content.len(),
{
    let front = content.drop_last();
    let before = shown_lines(front);
    let own = shown_block(content.last());
    let all = shown_lines(content);
    if k < front.len() {
        lemma_response_is_shown(front, k);
        assert(front[k] == content[k]);
        if content[k] is Text {
            let j = choose|j: int| 0 <= j < before.len() && before[j] == content[k]->text;
            assert(all[j] == content[k]->text);
        }
        if content[k] is ToolCall {
            let j = choose|j: int|
                0 <= j < before.len() && content[k]->name.is_suffix_of(#[trigger] before[j]);
            assert(all[j] == before[j]);
        }
    } else {
        assert(all[before.len() as int] == own[0] || content[k] is ToolOutput);
        if content[k] is ToolCall {
            let name = content[k]->name;
            assert(own[0] == "⚙ "@ + name);
            assert(own[0].subrange(own[0].len() - name.len(), own[0].len() as int) =~= name);
            assert(name.is_suffix_of(all[before.len() as int]));
        }
    }
}

/// The plan gate stops a teammate's tools that change something, and those only, as long as the plan
/// blocks; what it says tells the plan's status.
pub proof fn lemma_plan_gate(kind: AgentKind, name: Seq<char>, status: Option<&str>)
    ensures
        gate_reason(kind, name, status) is Some <==> status is Some && kind == AgentKind::Teammate && (
        name == "command"@ || name == "write_file"@ || name == "edit_file"@),
        gate_reason(kind, name, status) matches Some(t) ==> contains(t, status->Some_0@),
{
    if gate_reason(kind, name, status) is Some {
        let t = gate_reason(kind, name, status)->Some_0;
        let w = status->Some_0@;
        lemma_holds_itself(w);
        lemma_holds_within(
            "Blocked: plan status is "@,
            w,
            ". Submit or revise the plan and wait for approval."@,
            seq![w],
        );
        lemma_holds_each(t, seq![w], 0);
    }
}

/// Every notification is passed on, as a text of its own, whole and in order, in one message of the
/// user's; without any, nothing is added.
pub proof fn lemma_notices_are_passed_on(s: LoopV, p: LoopParts, notes: Vec<String>)
    ensures
        ({
            let out = reaction(s, p, LoopEvent::Collected(notes)).state.messages;
            let n = s.messages.len() as int;
            &&& notes@.len() == 0 ==> out == s.messages
            &&& notes@.len() > 0 ==> {
                &&& out.len() == n + 1
                &&& out.drop_last() == s.messages
                &&& out[n].role == Role::User
                &&& out[n].content.len() == notes@.len()
                &&& forall|i: int|
                    0 <= i < notes@.len() ==> #[trigger] out[n].content[i] == (BlockV::Text {
                        text: notes@[i]@,
                    })
            }
        }),
{
    let out = reaction(s, p, LoopEvent::Collected(notes)).state.messages;
    if notes@.len() > 0 {
        assert(out.drop_last() =~= s.messages);
    }
}

/// Mail joins the conversation behind what was said, all of it and in order. What a hook insists on is
/// the next thing the model reads, word for word.
pub proof fn lemma_mail_and_hooks_are_heard(
    s: LoopV,
    p: LoopParts,
    added: Vec<Message>,
    stop: bool,
    force: String,
)
    ensures
        ({
            let mail = reaction(s, p, LoopEvent::Inbox { added, stop }).state.messages;
            let forced = reaction(s, p, LoopEvent::StopAnswer(Some(force))).state.messages;
            let n = s.messages.len() as int;
            &&& mail == s.messages + messages_view(added@)
            &&& mail.len() == n + added@.len()
            &&& forced.len() == n + 1
            &&& forced.drop_last() == s.messages
            &&& forced[n].role == Role::User
            &&& forced[n].content.len() == 1
            &&& forced[n].content[0] == (BlockV::Text { text: force@ })
        }),
{
    let forced = reaction(s, p, LoopEvent::StopAnswer(Some(force))).state.messages;
    assert(forced.drop_last() =~= s.messages);
}

/// A turn asks for one thing after the other: the lead's for what background tasks have to tell, then
/// for the jobs that are due where there is a schedule, then a teammate's for its mail, then for the
/// history to be prepared, and then for the call.
pub proof fn lemma_turn_takes_its_steps(
    s: LoopV,
    p: LoopParts,
    notes: Vec<String>,
    jobs: Vec<CronJob>,
    added: Vec<Message>,
    prepared: Vec<Message>,
)
    ensures
        ({
            let mail = p.kind == AgentKind::Teammate && p.has_team;
            let last = if mail {
                Ask::ReadInbox
            } else {
                Ask::Prepare
            };
            let next = if p.has_cron {
                Ask::TakeJobs
            } else {
                last
            };
            let first = if p.kind == AgentKind::Lead {
                Ask::Collect
            } else {
                next
            };
            &&& s.turn < s.max_turns ==> reaction(s, p, LoopEvent::Begin).ask == Some(first)
                && reaction(s, p, LoopEvent::Begin).state.turn == s.turn + 1
            &&& s.turn >= s.max_turns ==> reaction(s, p, LoopEvent::Begin).ask is None && reaction(
                s,
                p,
                LoopEvent::Begin,
            ).end == Some(LoopEnd::Outcome(LoopOutcome::MaxTurnsReached))
            &&& reaction(s, p, LoopEvent::Collected(notes)).ask == Some(next)
            &&& reaction(s, p, LoopEvent::Jobs(jobs)).ask == Some(last)
            &&& reaction(s, p, LoopEvent::Inbox { added, stop: false }).ask == Some(Ask::Prepare)
            &&& reaction(s, p, LoopEvent::Inbox { added, stop: true }).end == Some(
                LoopEnd::Outcome(LoopOutcome::Completed),
            )
            &&& reaction(s, p, LoopEvent::Prepared(prepared)).ask == Some(Ask::Call)
            &&& reaction(s, p, LoopEvent::Prepared(prepared)).state.messages == messages_view(
                prepared@,
            )
        }),
{
}

/// A call that fails ends the loop with its own error, one that is interrupted ends it as cancelled, and
/// one whose prompt was too long has the history compacted, as often as that is allowed. A loop that may
/// stop asks for the goal where there is one, then remembers, and only then is it completed.
pub proof fn lemma_loop_ends_as_it_should(
    s: LoopV,
    p: LoopParts,
    e: LlmError,
    d: StopDecision,
    stored: usize,
)
    ensures
        after_call(s, CallResult::Failure(e)).end == Some(LoopEnd::Error(bridged(e))),
        after_call(s, CallResult::Failure(e)).restore == s.waiting,
        after_call(s, CallResult::Cancelled).end == Some(LoopEnd::Outcome(LoopOutcome::Cancelled)),
        s.retries < MAX_REACTIVE_RETRIES ==> after_call(s, CallResult::PromptTooLong(e)).ask == Some(
            Ask::Compact,
        ) && after_call(s, CallResult::PromptTooLong(e)).state.retries == s.retries + 1
            && after_call(s, CallResult::PromptTooLong(e)).state.messages == s.messages,
        s.retries >= MAX_REACTIVE_RETRIES ==> after_call(s, CallResult::PromptTooLong(e)).end
            == Some(LoopEnd::Error(bridged(e))),
        reaction(s, p, LoopEvent::StopAnswer(None)).ask == Some(
            if p.has_goal {
                Ask::AskGoal
            } else {
                Ask::Remember
            },
        ),
        reaction(s, p, LoopEvent::StopAnswer(None)).state == s,
        d.action != GoalAction::Block ==> reaction(s, p, LoopEvent::GoalDecision(d)).ask == Some(
            Ask::Remember,
        ),
        stored > 0 ==> reaction(s, p, LoopEvent::Remembered(stored)).ask == Some(Ask::Consolidate),
        stored == 0 ==> reaction(s, p, LoopEvent::Remembered(stored)).end == Some(
            LoopEnd::Outcome(LoopOutcome::Completed),
        ),
        reaction(s, p, LoopEvent::Consolidated).end == Some(
            LoopEnd::Outcome(LoopOutcome::Completed),
        ),
{
}

} // verus!

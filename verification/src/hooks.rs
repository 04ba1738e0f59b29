//! Hooks: callbacks around the agent loop.
//!
//! - Before a tool runs, the first callback that gives a reason blocks it.
//! - After a tool ran, the first callback that gives a message has it sent to the model, as a user
//!   message of its own.
//! - Before the loop ends, the first callback that gives a message keeps it going.

use vstd::prelude::*;

use crate::domain::message::{
    blocks_view, messages_view, user_text_v, BlockV, ContentBlock, Message, MessageV, Role,
};
use crate::text::texts;

verus! {

broadcast use vstd::string::group_string_axioms;

/// The views of optional texts.
pub open spec fn options_view(s: Seq<Option<String>>) -> Seq<Option<Seq<char>>> {
    s.map_values(|o: Option<String>| o.deep_view())
}

/// The first answer that is one.
pub open spec fn first_some(answers: Seq<Option<Seq<char>>>) -> Option<Seq<char>>
    decreases answers.len(),
{
    if answers.len() == 0 {
        None
    } else if answers[0] is Some {
        answers[0]
    } else {
        first_some(answers.skip(1))
    }
}

/// What the callbacks that were asked come to. They are asked in the order in which they were
/// registered, and no more once one of them has given an answer.
pub fn trigger(answers: &[Option<String>]) -> (r: Option<String>)
    ensures
        r.deep_view() == first_some(options_view(answers@)),
{
    let ghost all = options_view(answers@);
    assert(all.skip(0) =~= all);
    let mut i: usize = 0;
    while i < answers.len()
        invariant
            i <= answers@.len(),
            all == options_view(answers@),
            first_some(all) == first_some(all.skip(i as int)),
        decreases answers@.len() - i,
    {
        assert(all.skip(i as int)[0] == answers@[i as int].deep_view());
        match &answers[i] {
            Some(t) => {
                return Some(t.clone());
            },
            None => {},
        }
        assert(all.skip(i as int).skip(1) =~= all.skip(i + 1));
        i += 1;
    }
    None
}

/// Callbacks after the first that gives an answer do not count.
pub proof fn lemma_first_answer_counts(
    before: Seq<Option<Seq<char>>>,
    answer: Seq<char>,
    after: Seq<Option<Seq<char>>>,
)
    requires
        forall|i: int| 0 <= i < before.len() ==> (#[trigger] before[i]) is None,
    ensures
        first_some(before + seq![Some(answer)] + after) == Some(answer),
        first_some(before) is None,
    decreases before.len(),
{
    let all = before + seq![Some(answer)] + after;
    if before.len() == 0 {
        assert(all[0] == Some(answer));
    } else {
        assert(all[0] == before[0]);
        let rest = before.skip(1);
        assert forall|i: int| 0 <= i < rest.len() implies (#[trigger] rest[i]) is None by {
            assert(rest[i] == before[i + 1]);
        }
        lemma_first_answer_counts(rest, answer, after);
        assert(all.skip(1) =~= rest + seq![Some(answer)] + after);
    }
}

/// Callbacks that are asked one after the other.
#[verifier::ext_equal]
pub struct RunV {
    /// How many there are.
    pub count: nat,
    /// How many have been asked.
    pub asked: nat,
    /// The answer of the last one, if it gave one.
    pub answer: Option<Seq<char>>,
}

impl RunV {
    /// Which callback is to be asked now.
    pub open spec fn next(self) -> Option<nat> {
        if self.answer is None && self.asked < self.count {
            Some(self.asked)
        } else {
            None
        }
    }

    /// The callback has given its answer.
    pub open spec fn with_answer(self, answer: Option<Seq<char>>) -> RunV {
        RunV { asked: self.asked + 1, answer, ..self }
    }
}

/// Callbacks of one event, asked in the order in which they were registered and no more once one of
/// them has given an answer.
#[derive(Debug)]
pub struct HookRun {
    count: usize,
    asked: usize,
    answer: Option<String>,
}

impl View for HookRun {
    type V = RunV;

    closed spec fn view(&self) -> RunV {
        RunV {
            count: self.count as nat,
            asked: self.asked as nat,
            answer: self.answer.deep_view(),
        }
    }
}

impl HookRun {
    /// So many callbacks are registered for the event.
    pub fn new(count: usize) -> (r: Self)
        ensures
            r@ == (RunV { count: count as nat, asked: 0, answer: None }),
    {
        HookRun { count, asked: 0, answer: None }
    }

    /// Which callback is to be asked now, by its place in the order; none once the run is over.
    pub fn next(&self) -> (r: Option<usize>)
        ensures
            match r {
                Some(i) => self@.next() == Some(i as nat),
                None => self@.next() is None,
            },
    {
        if self.answer.is_none() && self.asked < self.count {
            Some(self.asked)
        } else {
            None
        }
    }

    /// The callback that was to be asked has given its answer.
    pub fn answered(&mut self, answer: Option<String>)
        requires
            old(self)@.next() is Some,
        ensures
            final(self)@ == old(self)@.with_answer(answer.deep_view()),
    {
        self.asked = self.asked + 1;
        self.answer = answer;
    }

    /// What the run has come to.
    pub fn result(self) -> (r: Option<String>)
        ensures
            r.deep_view() == self@.answer,
    {
        self.answer
    }
}

/// The run after the callbacks have given the answers, as far as they are asked.
pub open spec fn ran(run: RunV, answers: Seq<Option<Seq<char>>>) -> RunV
    decreases answers.len(),
{
    match run.next() {
        Some(_) => if answers.len() == 0 {
            run
        } else {
            ran(run.with_answer(answers[0]), answers.skip(1))
        },
        None => run,
    }
}

/// A run comes to the first answer that is one, and asks no callback behind the one that gave it.
pub proof fn lemma_run_stops_at_first_answer(run: RunV, answers: Seq<Option<Seq<char>>>)
    requires
        run.answer is None,
        run.asked + answers.len() == run.count,
    ensures
        ran(run, answers).answer == first_some(answers),
        ran(run, answers).next() is None,
        ran(run, answers).asked <= run.count,
        forall|i: int|
            0 <= i < ran(run, answers).asked - run.asked - 1 ==> (#[trigger] answers[i]) is None,
    decreases answers.len(),
{
    if answers.len() > 0 {
        let after = run.with_answer(answers[0]);
        let rest = answers.skip(1);
        if answers[0] is None {
            lemma_run_stops_at_first_answer(after, rest);
            assert forall|i: int| 0 <= i < ran(run, answers).asked - run.asked - 1 implies (
            #[trigger] answers[i]) is None by {
                if i > 0 {
                    assert(rest[i - 1] == answers[i]);
                }
            }
        } else {
            assert(after.next() is None);
            assert(ran(after, rest) == after);
        }
    }
}

/// A text block for each text.
pub open spec fn text_blocks(ts: Seq<Seq<char>>) -> Seq<BlockV> {
    ts.map_values(|t: Seq<char>| BlockV::Text { text: t })
}

/// The user messages that follow the tool calls of a turn.
pub open spec fn post_tool_messages(
    outputs: Seq<BlockV>,
    reminders: Seq<Seq<char>>,
) -> Seq<MessageV> {
    let first = if outputs.len() > 0 {
        seq![MessageV { role: Role::User, content: outputs }]
    } else {
        Seq::empty()
    };
    let second = if reminders.len() > 0 {
        seq![MessageV { role: Role::User, content: text_blocks(reminders) }]
    } else {
        Seq::empty()
    };
    if outputs.len() == 0 && reminders.len() == 0 {
        seq![user_text_v("(no tool calls to execute)"@)]
    } else {
        first + second
    }
}

/// The user messages that follow the tool calls of a turn: the outputs as they are, the reminders as
/// a message of their own, and a placeholder where there is neither.
pub fn assemble_post_tool_messages(tool_outputs: Vec<ContentBlock>, reminders: Vec<String>) -> (r:
    Vec<Message>)
    ensures
        messages_view(r@) == post_tool_messages(blocks_view(tool_outputs@), texts(reminders@)),
{
    let ghost outputs = blocks_view(tool_outputs@);
    let ghost told = texts(reminders@);
    let mut out: Vec<Message> = Vec::new();
    assert(messages_view(out@) =~= Seq::empty());
    let has_outputs = tool_outputs.len() > 0;
    if has_outputs {
        let m = Message::user_blocks(tool_outputs);
        out.push(m);
        assert(messages_view(out@) =~= seq![m@]);
    }
    let ghost before = messages_view(out@);
    let n: usize = reminders.len();
    if n > 0 {
        let mut blocks: Vec<ContentBlock> = Vec::new();
        let ghost goal = text_blocks(told);
        let mut i: usize = 0;
        while i < n
            invariant
                i <= n,
                n == reminders@.len(),
                told == texts(reminders@),
                goal == text_blocks(told),
                blocks_view(blocks@) == goal.take(i as int),
            decreases n - i,
        {
            let ghost done = blocks_view(blocks@);
            blocks.push(ContentBlock::text(reminders[i].as_str()));
            assert(blocks_view(blocks@) =~= done.push(goal[i as int]));
            assert(goal.take(i + 1) =~= done.push(goal[i as int]));
            i += 1;
        }
        assert(goal.take(n as int) =~= goal);
        let m = Message::user_blocks(blocks);
        out.push(m);
        assert(messages_view(out@) =~= before + seq![m@]);
    }
    if out.len() == 0 {
        let m = Message::user_text("(no tool calls to execute)");
        out.push(m);
        assert(messages_view(out@) =~= seq![m@]);
    }
    assert(messages_view(out@) =~= post_tool_messages(outputs, told));
    out
}

/// The model is always answered: there is a message after the tool calls of a turn, each is a user
/// message, and none is empty.
pub proof fn lemma_post_tool_messages_not_empty(outputs: Seq<BlockV>, reminders: Seq<Seq<char>>)
    ensures
        post_tool_messages(outputs, reminders).len() > 0,
        forall|i: int|
            0 <= i < post_tool_messages(outputs, reminders).len() ==> {
                let m = #[trigger] post_tool_messages(outputs, reminders)[i];
                m.role == Role::User && m.content.len() > 0
            },
{
}

/// A reminder never changes the output of a tool: the outputs are the same with reminders and
/// without.
pub proof fn lemma_reminders_leave_outputs(outputs: Seq<BlockV>, reminders: Seq<Seq<char>>)
    requires
        outputs.len() > 0,
    ensures
        post_tool_messages(outputs, reminders)[0].content == outputs,
        post_tool_messages(outputs, reminders)[0] == post_tool_messages(outputs, Seq::empty())[0],
{
}

/// What a callback needs to talk with the user.
pub struct HookContext<T> {
    pub io: T,
}

impl<T> HookContext<T> {
    pub fn new(io: T) -> (r: Self)
        ensures
            r.io == io,
    {
        HookContext { io }
    }
}

} // verus!

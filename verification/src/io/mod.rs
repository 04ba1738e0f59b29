//! Input and output of the agent, apart from what is behind them: the console, or memory in tests.

use vstd::prelude::*;

use crate::json::{json_compact, json_text, Json, JsonV};
use crate::render::{
    adds_blocked, adds_heading, adds_line, adds_permission, adds_prompt, adds_tool_output, emitted,
    line_ops, logo_text, Backend, Coordinator, Op, Tint,
};
use crate::text::{clone_list, concat2, concat3, owned, texts};

verus! {

broadcast use vstd::string::group_string_axioms;

/// What the agent shows to the user.
pub trait Output {
    /// A full output line.
    fn emit(&mut self, line: &str);

    /// A banner.
    fn banner(&mut self, msg: &str);

    /// Status info.
    fn status(&mut self, msg: &str);

    /// Error info.
    fn error(&mut self, msg: &str);

    /// A blank line.
    fn blank(&mut self);

    /// A tool output.
    fn render_tool_output(&mut self, name: &str, result: &str, color: bool);

    /// The prompt.
    fn prompt(&mut self);

    /// Notice of a refused command.
    fn blocked(&mut self, pattern: &str);

    /// A permission request.
    fn permission(&mut self, reason: &str, name: &str, input: &Json);

    /// The startup logo.
    fn logo(&mut self);

    /// A heading and the text below it.
    fn heading(&mut self, title: &str, body: &str);
}

/// What the user says to the agent.
pub trait Input {
    /// One line; `None` where there are no more or the user gave up.
    fn read_line(&mut self) -> Option<String>;

    /// The answer to a permission request.
    fn read_permission(&mut self) -> bool;

    /// Ends the reading.
    fn shutdown(&mut self);
}

/// Console output over a coordinator.
#[derive(Debug)]
pub struct ConsoleOutput<B: Backend> {
    pub coordinator: Coordinator<B>,
}

impl<B: Backend> ConsoleOutput<B> {
    pub fn new(coordinator: Coordinator<B>) -> (r: Self)
        ensures
            r.coordinator == coordinator,
    {
        ConsoleOutput { coordinator }
    }

    /// What the backend was told to do so far.
    pub open spec fn received(&self) -> Seq<Op> {
        self.coordinator.backend.received()
    }

    /// The backend takes everything.
    pub open spec fn reliable(&self) -> bool {
        self.coordinator.backend.reliable()
    }
}

impl<B: Backend> Output for ConsoleOutput<B> {
    fn emit(&mut self, line: &str)
        ensures
            emitted(
                old(self).coordinator.backend,
                final(self).coordinator.backend,
                line@,
                final(self).coordinator.backend.outcomes().last(),
            ),
            final(self).reliable() == old(self).reliable(),
            old(self).reliable() ==> final(self).received() == old(self).received() + line_ops(line@),
    {
        let _ = self.coordinator.emit(line);
    }

    fn banner(&mut self, msg: &str)
        ensures
            emitted(
                old(self).coordinator.backend,
                final(self).coordinator.backend,
                msg@,
                final(self).coordinator.backend.outcomes().last(),
            ),
            final(self).reliable() == old(self).reliable(),
            old(self).reliable() ==> final(self).received() == old(self).received() + line_ops(msg@),
    {
        self.coordinator.banner(msg);
    }

    fn status(&mut self, msg: &str)
        ensures
            adds_line(
                old(self).coordinator.backend,
                final(self).coordinator.backend,
                msg@,
                Tint::Yellow,
                true,
            ),
    {
        self.coordinator.status(msg);
    }

    fn error(&mut self, msg: &str)
        ensures
            adds_line(
                old(self).coordinator.backend,
                final(self).coordinator.backend,
                msg@,
                Tint::Red,
                true,
            ),
    {
        self.coordinator.error(msg);
    }

    fn blank(&mut self)
        ensures
            emitted(
                old(self).coordinator.backend,
                final(self).coordinator.backend,
                ""@,
                final(self).coordinator.backend.outcomes().last(),
            ),
            final(self).reliable() == old(self).reliable(),
            old(self).reliable() ==> final(self).received() == old(self).received() + line_ops(""@),
    {
        self.coordinator.blank();
    }

    fn render_tool_output(&mut self, name: &str, result: &str, color: bool)
        ensures
            adds_tool_output(
                old(self).coordinator.backend,
                final(self).coordinator.backend,
                name@,
                result@,
                color,
            ),
    {
        self.coordinator.render_tool_output(name, result, color);
    }

    fn prompt(&mut self)
        ensures
            adds_prompt(
                old(self).coordinator.backend,
                final(self).coordinator.backend,
                true,
            ),
    {
        self.coordinator.prompt();
    }

    fn blocked(&mut self, pattern: &str)
        ensures
            adds_blocked(
                old(self).coordinator.backend,
                final(self).coordinator.backend,
                pattern@,
                true,
            ),
    {
        self.coordinator.blocked(pattern);
    }

    fn permission(&mut self, reason: &str, name: &str, input: &Json)
        ensures
            adds_permission(
                old(self).coordinator.backend,
                final(self).coordinator.backend,
                reason@,
                name@,
                input@,
                true,
            ),
    {
        self.coordinator.permission(reason, name, input);
    }

    fn logo(&mut self)
        ensures
            adds_line(
                old(self).coordinator.backend,
                final(self).coordinator.backend,
                logo_text(),
                Tint::Cyan,
                true,
            ),
    {
        self.coordinator.logo();
    }

    fn heading(&mut self, title: &str, body: &str)
        ensures
            adds_heading(
                old(self).coordinator.backend,
                final(self).coordinator.backend,
                title@,
                body@,
                true,
            ),
    {
        self.coordinator.heading(title, body);
    }
}

/// In-memory output: keeps all lines.
#[derive(Debug)]
pub struct MemoryOutput {
    lines: Vec<String>,
}

impl View for MemoryOutput {
    type V = Seq<Seq<char>>;

    closed spec fn view(&self) -> Seq<Seq<char>> {
        texts(self.lines@)
    }
}

impl Default for MemoryOutput {
    fn default() -> (r: Self)
        ensures
            r@ == Seq::<Seq<char>>::empty(),
    {
        MemoryOutput::new()
    }
}

impl MemoryOutput {
    pub fn new() -> (r: Self)
        ensures
            r@ == Seq::<Seq<char>>::empty(),
    {
        let r = MemoryOutput { lines: Vec::new() };
        assert(r@ =~= Seq::<Seq<char>>::empty());
        r
    }

    /// All lines so far.
    pub fn lines(&self) -> (r: Vec<String>)
        ensures
            texts(r@) == self@,
    {
        clone_list(self.lines.as_slice())
    }

    /// Forgets the lines.
    pub fn clear(&mut self)
        ensures
            final(self)@ == Seq::<Seq<char>>::empty(),
    {
        self.lines = Vec::new();
        assert(self@ =~= Seq::<Seq<char>>::empty());
    }

    fn add_line(&mut self, line: String)
        ensures
            final(self)@ == old(self)@.push(line@),
    {
        let ghost before = self@;
        self.lines.push(line);
        assert(self@ =~= before.push(line@));
    }
}

impl Output for MemoryOutput {
    fn emit(&mut self, line: &str)
        ensures
            final(self)@ == old(self)@.push(line@),
    {
        self.add_line(owned(line));
    }

    fn banner(&mut self, msg: &str)
        ensures
            final(self)@ == old(self)@.push("[BANNER] "@ + msg@),
    {
        self.add_line(concat2("[BANNER] ", msg));
    }

    fn status(&mut self, msg: &str)
        ensures
            final(self)@ == old(self)@.push("[STATUS] "@ + msg@),
    {
        self.add_line(concat2("[STATUS] ", msg));
    }

    fn error(&mut self, msg: &str)
        ensures
            final(self)@ == old(self)@.push("[ERROR] "@ + msg@),
    {
        self.add_line(concat2("[ERROR] ", msg));
    }

    fn blank(&mut self)
        ensures
            final(self)@ == old(self)@.push(""@),
    {
        self.add_line(owned(""));
    }

    fn render_tool_output(&mut self, name: &str, result: &str, color: bool)
        ensures
            final(self)@ == old(self)@.push("[TOOL] "@ + name@ + " -> "@ + result@),
    {
        self.add_line(concat2(concat3("[TOOL] ", name, " -> ").as_str(), result));
    }

    fn prompt(&mut self)
        ensures
            final(self)@ == old(self)@.push(">> "@),
    {
        self.add_line(owned(">> "));
    }

    fn blocked(&mut self, pattern: &str)
        ensures
            final(self)@ == old(self)@.push("[BLOCKED] "@ + pattern@),
    {
        self.add_line(concat2("[BLOCKED] ", pattern));
    }

    fn permission(&mut self, reason: &str, name: &str, input: &Json)
        ensures
            final(self)@ == old(self)@.push(asked(reason@, name@, input@)),
    {
        let head = concat3("[PERMISSION] ", reason, " ");
        let call = concat3(head.as_str(), name, "(");
        self.add_line(concat3(call.as_str(), json_text(input).as_str(), ")"));
    }

    fn logo(&mut self)
        ensures
            final(self)@ == old(self)@.push("[LOGO] ByteMaker"@),
    {
        self.add_line(owned("[LOGO] ByteMaker"));
    }

    fn heading(&mut self, title: &str, body: &str)
        ensures
            final(self)@ == old(self)@.push("[HEADING] ## "@ + title@ + "\n"@ + body@),
    {
        self.add_line(concat2(concat3("[HEADING] ## ", title, "\n").as_str(), body));
    }
}

/// The line of a permission request in memory.
pub open spec fn asked(reason: Seq<char>, name: Seq<char>, input: JsonV) -> Seq<char> {
    "[PERMISSION] "@ + reason + " "@ + name + "("@ + json_compact(input) + ")"@
}

/// Mock input: answers that were laid down before, the last one first.
#[derive(Debug)]
pub struct MockInput {
    read_responses: Vec<Option<String>>,
    permission_responses: Vec<bool>,
}

/// The answers that a mock input still has.
#[verifier::ext_equal]
pub struct MockV {
    pub reads: Seq<Option<Seq<char>>>,
    pub permissions: Seq<bool>,
}

impl View for MockInput {
    type V = MockV;

    closed spec fn view(&self) -> MockV {
        MockV {
            reads: self.read_responses@.map_values(|o: Option<String>| o.deep_view()),
            permissions: self.permission_responses@,
        }
    }
}

impl Default for MockInput {
    fn default() -> (r: Self)
        ensures
            r@ == (MockV { reads: Seq::empty(), permissions: Seq::empty() }),
    {
        MockInput::new()
    }
}

impl MockInput {
    pub fn new() -> (r: Self)
        ensures
            r@ == (MockV { reads: Seq::empty(), permissions: Seq::empty() }),
    {
        let r = MockInput { read_responses: Vec::new(), permission_responses: Vec::new() };
        assert(r@ =~= (MockV { reads: Seq::empty(), permissions: Seq::empty() }));
        r
    }

    /// Lays down an answer to [`Input::read_line`].
    pub fn push_read(&mut self, response: Option<String>)
        ensures
            final(self)@ == (MockV {
                reads: old(self)@.reads.push(response.deep_view()),
                ..old(self)@
            }),
    {
        let ghost before = self@;
        self.read_responses.push(response);
        assert(self@.reads =~= before.reads.push(response.deep_view()));
    }

    /// Lays down an answer to [`Input::read_permission`].
    pub fn push_permission(&mut self, granted: bool)
        ensures
            final(self)@ == (MockV {
                permissions: old(self)@.permissions.push(granted),
                ..old(self)@
            }),
    {
        self.permission_responses.push(granted);
    }
}

impl Input for MockInput {
    fn read_line(&mut self) -> (r: Option<String>)
        ensures
            if old(self)@.reads.len() == 0 {
                r is None && final(self)@ == old(self)@
            } else {
                r.deep_view() == old(self)@.reads.last() && final(self)@ == (MockV {
                    reads: old(self)@.reads.drop_last(),
                    ..old(self)@
                })
            },
    {
        let ghost before = self@;
        match self.read_responses.pop() {
            None => None,
            Some(line) => {
                assert(self@.reads =~= before.reads.drop_last());
                line
            },
        }
    }

    fn read_permission(&mut self) -> (r: bool)
        ensures
            if old(self)@.permissions.len() == 0 {
                !r && final(self)@ == old(self)@
            } else {
                r == old(self)@.permissions.last() && final(self)@ == (MockV {
                    permissions: old(self)@.permissions.drop_last(),
                    ..old(self)@
                })
            },
    {
        let ghost before = self@;
        match self.permission_responses.pop() {
            None => false,
            Some(granted) => {
                assert(self@.permissions =~= before.permissions.drop_last());
                granted
            },
        }
    }

    fn shutdown(&mut self)
        ensures
            final(self)@ == old(self)@,
    {
    }
}

/// Input and output together. What concerns both happens here: a permission request is shown first
/// and answered then.
#[derive(Debug)]
pub struct IO<O, I> {
    pub output: O,
    pub input: I,
}

impl<O, I> IO<O, I> {
    pub fn new(output: O, input: I) -> (r: Self)
        ensures
            r.output == output,
            r.input == input,
    {
        IO { output, input }
    }
}

impl IO<MemoryOutput, MockInput> {
    /// Input and output in memory.
    pub fn memory() -> (r: Self)
        ensures
            r.output@ == Seq::<Seq<char>>::empty(),
            r.input@ == (MockV { reads: Seq::empty(), permissions: Seq::empty() }),
    {
        IO { output: MemoryOutput::new(), input: MockInput::new() }
    }

    /// Shows a permission request, and reads the answer.
    pub fn ask_permission(&mut self, reason: &str, name: &str, input: &Json) -> (r: bool)
        ensures
            final(self).output@ == old(self).output@.push(asked(reason@, name@, input@)),
            if old(self).input@.permissions.len() == 0 {
                !r && final(self).input@ == old(self).input@
            } else {
                r == old(self).input@.permissions.last() && final(self).input@ == (MockV {
                    permissions: old(self).input@.permissions.drop_last(),
                    ..old(self).input@
                })
            },
    {
        self.output.permission(reason, name, input);
        self.input.read_permission()
    }
}

} // verus!

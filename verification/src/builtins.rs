//! The built-in hooks: todo reminders, a tally of tool calls, warnings of large outputs, and the gates
//! that a command passes before it runs.

use vstd::prelude::*;

use crate::hooks::HookRun;
use crate::json::{text_field, Json, JsonV};
use crate::pattern::{hits, is_hit};
use crate::text::{byte_count, byte_len, concat2, concat3, decimal, decimal_usize, owned, str_eq};
use crate::tools::PermissionCheck;

verus! {

broadcast use vstd::string::group_string_axioms;

// ---- todo reminder ----

/// After how many tool calls without an update of the todos the model is reminded.
pub const REMINDER_INTERVAL: usize = 3;

/// Reminds the model of its todos every third tool call; updating the todos starts the count again.
#[derive(Debug)]
pub struct TodoReminderHook {
    counter: usize,
}

impl View for TodoReminderHook {
    type V = nat;

    /// The number of tool calls since the last reminder or update.
    closed spec fn view(&self) -> nat {
        self.counter as nat
    }
}

/// The count after a tool call, and the reminder, where there is one.
pub open spec fn reminded(count: nat, name: Seq<char>) -> (nat, Option<Seq<char>>) {
    if name == "todo_write"@ {
        (0, None)
    } else if count + 1 >= REMINDER_INTERVAL {
        (0, Some("<reminder>Update your todos.</reminder>"@))
    } else {
        (count + 1, None)
    }
}

impl TodoReminderHook {
    pub fn new() -> (r: Self)
        ensures
            r@ == 0,
    {
        TodoReminderHook { counter: 0 }
    }

    /// Starts the count again.
    pub fn reset_counter(&mut self)
        ensures
            final(self)@ == 0,
    {
        self.counter = 0;
    }

    /// Counts a tool call.
    pub fn on_post_tool(&mut self, name: &str) -> (r: Option<String>)
        ensures
            (final(self)@, r.deep_view()) == reminded(old(self)@, name@),
    {
        if str_eq(name, "todo_write") {
            self.counter = 0;
            return None;
        }
        if self.counter >= REMINDER_INTERVAL - 1 {
            self.counter = 0;
            Some(owned("<reminder>Update your todos.</reminder>"))
        } else {
            self.counter = self.counter + 1;
            None
        }
    }
}

/// The count stays below the interval.
pub proof fn lemma_count_stays_below(count: nat, name: Seq<char>)
    ensures
        reminded(count, name).0 < REMINDER_INTERVAL,
{
}

/// The model is reminded exactly every third tool call, as long as it does not update its todos: from
/// a new count the first two calls bring no reminder, the third does, and the count is new again.
pub proof fn lemma_reminder_every_third(a: Seq<char>, b: Seq<char>, c: Seq<char>)
    requires
        a != "todo_write"@,
        b != "todo_write"@,
        c != "todo_write"@,
    ensures
        reminded(0, a) == (1nat, None::<Seq<char>>),
        reminded(1, b) == (2nat, None::<Seq<char>>),
        reminded(2, c).0 == 0 && reminded(2, c).1 is Some,
{
}

// ---- context, large outputs, tally ----

/// Notes the working directory when the user has submitted a prompt.
pub struct ContextInjectHook;

impl ContextInjectHook {
    /// The line for the log.
    pub fn on_prompt(&self, workdir: &str) -> (r: String)
        ensures
            r@ == "[HOOK] UserPromptSubmit: working in "@ + workdir@,
    {
        concat2("[HOOK] UserPromptSubmit: working in ", workdir)
    }
}

/// The size in bytes from which an output is called large.
pub const LARGE_OUTPUT: usize = 100_000;

/// The line for the log, where the output is large.
pub open spec fn large_warning(name: Seq<char>, output: Seq<char>) -> Option<Seq<char>> {
    if byte_len(output) > LARGE_OUTPUT {
        Some(
            "[HOOK] Large output from "@ + name + ": "@ + decimal(byte_len(output) as nat)
                + " chars"@,
        )
    } else {
        None
    }
}

/// Warns of large outputs.
pub struct LargeOutputHook;

impl LargeOutputHook {
    /// The line for the log, where the output is large. The model is told nothing.
    pub fn warning(&self, name: &str, output: &str) -> (r: Option<String>)
        ensures
            r.deep_view() == large_warning(name@, output@),
    {
        let n: usize = byte_count(output);
        if n > LARGE_OUTPUT {
            let head = concat3("[HOOK] Large output from ", name, ": ");
            Some(concat3(head.as_str(), decimal_usize(n).as_str(), " chars"))
        } else {
            None
        }
    }

    /// Never a message for the model.
    pub fn on_post_tool(&self) -> (r: Option<String>)
        ensures
            r is None,
    {
        None
    }
}

/// Tallies the tool calls of the session. The count is kept apart from the messages, which compaction
/// rewrites.
#[derive(Debug)]
pub struct SummaryHook {
    tool_calls: usize,
}

impl View for SummaryHook {
    type V = usize;

    closed spec fn view(&self) -> usize {
        self.tool_calls
    }
}

/// The count after one more call; it wraps around.
pub open spec fn one_more(count: usize) -> usize {
    if count == usize::MAX {
        0
    } else {
        (count + 1) as usize
    }
}

impl SummaryHook {
    pub fn new() -> (r: Self)
        ensures
            r@ == 0,
    {
        SummaryHook { tool_calls: 0 }
    }

    /// Counts a tool call; never a message for the model, so that later hooks are asked too. The
    /// count wraps around.
    pub fn on_post_tool(&mut self) -> (r: Option<String>)
        ensures
            r is None,
            final(self)@ == one_more(old(self)@),
    {
        if self.tool_calls == usize::MAX {
            self.tool_calls = 0;
        } else {
            self.tool_calls = self.tool_calls + 1;
        }
        None
    }

    /// The line for the log when the loop ends.
    pub fn summary(&self) -> (r: String)
        ensures
            r@ == "[HOOK] Stop: session used "@ + decimal(self@ as nat) + " tool calls"@,
    {
        concat3("[HOOK] Stop: session used ", decimal_usize(self.tool_calls).as_str(), " tool calls")
    }

    /// Never a message for the model.
    pub fn on_stop(&self) -> (r: Option<String>)
        ensures
            r is None,
    {
        None
    }
}

// ---- after a tool call ----

/// What the hooks have to say after a tool call: a line for the log, and a message for the model.
#[derive(Debug)]
pub struct PostToolReply {
    pub warning: Option<String>,
    pub message: Option<String>,
}

/// The hooks that are asked after a tool call: the tally first, then the watch on large outputs, and the
/// reminder last, since a reminder ends the asking.
#[derive(Debug)]
pub struct BuiltinHooks {
    pub summary: SummaryHook,
    pub reminder: TodoReminderHook,
}

impl BuiltinHooks {
    pub fn new() -> (r: Self)
        ensures
            r.summary@ == 0,
            r.reminder@ == 0,
    {
        BuiltinHooks { summary: SummaryHook::new(), reminder: TodoReminderHook::new() }
    }

    /// Asks the hooks after a tool call. Every call is tallied, whether or not the model is reminded.
    pub fn on_post_tool(&mut self, name: &str, output: &str) -> (r: PostToolReply)
        ensures
            final(self).summary@ == one_more(old(self).summary@),
            (final(self).reminder@, r.message.deep_view()) == reminded(old(self).reminder@, name@),
            r.warning.deep_view() == large_warning(name@, output@),
    {
        let mut run = HookRun::new(3);
        run.answered(self.summary.on_post_tool());
        let warning = LargeOutputHook.warning(name, output);
        run.answered(LargeOutputHook.on_post_tool());
        run.answered(self.reminder.on_post_tool(name));
        PostToolReply { warning, message: run.result() }
    }
}

// ---- permission gates ----

/// The patterns of commands that are always refused, each with what is said of it.
pub open spec fn deny_table() -> Seq<(Seq<char>, Seq<char>)> {
    seq![
        ("(?i)\\brm\\s+-rf\\s+/?"@, "rm -rf / (destructive command)"@),
        ("(?i)\\bsudo\\b"@, "sudo (privilege escalation)"@),
        ("(?i)\\b(shutdown|reboot|halt|poweroff)\\b"@, "system shutdown command"@),
        ("(?i)\\b(mkfs|dd\\s+if=)\\b"@, "dd (direct disk write)"@),
        ("(?i)>?\\s*/dev/sd[ab]\\d?"@, "dangerous command"@),
        ("(?i)\\b(chmod)\\s+777"@, "chmod 777 (insecure permissions)"@),
        ("(?i)\\b(chown)\\s+-R\\s+root:"@, "dangerous command"@),
    ]
}

/// The patterns of commands that the user has to approve.
pub open spec fn approval_patterns() -> Seq<Seq<char>> {
    seq![
        "(?i)\\b(rm|dd|mkfs)\\b"@,
        "(?i)\\b(sudo|su|doas)\\b"@,
        "(?i)\\b(curl|wget)\\s+.*\\|\\s*(sh|bash)"@,
        "(?i)\\beval\\b"@,
    ]
}

/// What is said of the first row whose pattern was found.
pub open spec fn first_reason(
    table: Seq<(Seq<char>, Seq<char>)>,
    found: Seq<bool>,
) -> Option<Seq<char>>
    decreases table.len(),
{
    if table.len() == 0 || found.len() == 0 {
        None
    } else if found[0] {
        Some(table[0].1)
    } else {
        first_reason(table.skip(1), found.skip(1))
    }
}

/// Which patterns of the table are found in the command.
pub open spec fn deny_hits(command: Seq<char>) -> Seq<bool> {
    deny_table().map_values(|row: (Seq<char>, Seq<char>)| hits(row.0, command))
}

/// Why the command is always refused, if it is.
pub open spec fn deny_reason(command: Seq<char>) -> Option<Seq<char>> {
    first_reason(deny_table(), deny_hits(command))
}

/// The command needs the approval of the user.
pub open spec fn approval_needed(command: Seq<char>) -> bool {
    exists|i: int|
        0 <= i < approval_patterns().len() && hits(#[trigger] approval_patterns()[i], command)
}

fn deny_row(i: usize) -> (r: (&'static str, &'static str))
    requires
        i < 7,
    ensures
        (r.0@, r.1@) == deny_table()[i as int],
{
    match i {
        0 => ("(?i)\\brm\\s+-rf\\s+/?", "rm -rf / (destructive command)"),
        1 => ("(?i)\\bsudo\\b", "sudo (privilege escalation)"),
        2 => ("(?i)\\b(shutdown|reboot|halt|poweroff)\\b", "system shutdown command"),
        3 => ("(?i)\\b(mkfs|dd\\s+if=)\\b", "dd (direct disk write)"),
        4 => ("(?i)>?\\s*/dev/sd[ab]\\d?", "dangerous command"),
        5 => ("(?i)\\b(chmod)\\s+777", "chmod 777 (insecure permissions)"),
        _ => ("(?i)\\b(chown)\\s+-R\\s+root:", "dangerous command"),
    }
}

/// What is said of a command in which these patterns of the table were found.
pub fn denied_by(found: &[bool]) -> (r: Option<&'static str>)
    requires
        found@.len() == 7,
    ensures
        match r {
            Some(t) => first_reason(deny_table(), found@) == Some(t@),
            None => first_reason(deny_table(), found@) is None,
        },
{
    let ghost table = deny_table();
    assert(table.skip(0) =~= table);
    assert(found@.skip(0) =~= found@);
    let mut i: usize = 0;
    while i < 7
        invariant
            i <= 7,
            found@.len() == 7,
            table == deny_table(),
            table.len() == 7,
            first_reason(table, found@) == first_reason(table.skip(i as int), found@.skip(i as int)),
        decreases 7 - i,
    {
        let row = deny_row(i);
        assert(table.skip(i as int)[0] == table[i as int]);
        assert(found@.skip(i as int)[0] == found@[i as int]);
        if found[i] {
            return Some(row.1);
        }
        assert(table.skip(i as int).skip(1) =~= table.skip(i + 1));
        assert(found@.skip(i as int).skip(1) =~= found@.skip(i + 1));
        i += 1;
    }
    None
}

/// Why the command is always refused, if it is.
pub fn check_deny_patterns(command: &str) -> (r: Option<&'static str>)
    ensures
        match r {
            Some(t) => deny_reason(command@) == Some(t@),
            None => deny_reason(command@) is None,
        },
{
    let ghost goal = deny_hits(command@);
    let mut found: Vec<bool> = Vec::new();
    let mut i: usize = 0;
    while i < 7
        invariant
            i <= 7,
            goal == deny_hits(command@),
            goal.len() == 7,
            found@ == goal.take(i as int),
        decreases 7 - i,
    {
        found.push(is_hit(deny_row(i).0, command));
        assert(found@ =~= goal.take(i + 1));
        i += 1;
    }
    assert(goal.take(7) =~= goal);
    denied_by(found.as_slice())
}

/// What the user is told of a command that needs approval.
pub const APPROVAL_REASON: &'static str =
    "This command may modify system state and requires approval";

fn approval_pattern(i: usize) -> (r: &'static str)
    requires
        i < 4,
    ensures
        r@ == approval_patterns()[i as int],
{
    match i {
        0 => "(?i)\\b(rm|dd|mkfs)\\b",
        1 => "(?i)\\b(sudo|su|doas)\\b",
        2 => "(?i)\\b(curl|wget)\\s+.*\\|\\s*(sh|bash)",
        _ => "(?i)\\beval\\b",
    }
}

/// What the user is told of the command, where it needs approval.
pub fn requires_approval(command: &str) -> (r: Option<&'static str>)
    ensures
        match r {
            Some(t) => approval_needed(command@) && t@ == APPROVAL_REASON@,
            None => !approval_needed(command@),
        },
{
    let mut i: usize = 0;
    while i < 4
        invariant
            i <= 4,
            forall|k: int| 0 <= k < i ==> !hits(#[trigger] approval_patterns()[k], command@),
        decreases 4 - i,
    {
        if is_hit(approval_pattern(i), command) {
            assert(hits(approval_patterns()[i as int], command@));
            return Some(APPROVAL_REASON);
        }
        i += 1;
    }
    None
}

/// Where a tool call stands before it runs.
#[derive(Debug)]
pub enum Gate {
    /// It is refused; `shown` is what the user sees of the reason, where it is shown.
    Block { shown: Option<String>, reason: String },
    /// The user is asked about the command.
    AskCommand { reason: String },
    /// The tool is asked.
    CheckTool,
    /// The user is asked about the tool call.
    AskTool { reason: String },
    /// It runs.
    Allow,
}

/// Where a tool call stands, with texts as sequences of characters.
#[verifier::ext_equal]
pub enum GateV {
    Block { shown: Option<Seq<char>>, reason: Seq<char> },
    AskCommand { reason: Seq<char> },
    CheckTool,
    AskTool { reason: Seq<char> },
    Allow,
}

impl View for Gate {
    type V = GateV;

    open spec fn view(&self) -> GateV {
        match *self {
            Gate::Block { shown, reason } => GateV::Block {
                shown: shown.deep_view(),
                reason: reason@,
            },
            Gate::AskCommand { reason } => GateV::AskCommand { reason: reason@ },
            Gate::CheckTool => GateV::CheckTool,
            Gate::AskTool { reason } => GateV::AskTool { reason: reason@ },
            Gate::Allow => GateV::Allow,
        }
    }
}

/// The command of a tool call.
pub open spec fn command_of(input: JsonV) -> Seq<char> {
    match text_field(input, "command"@) {
        Some(c) => c,
        None => ""@,
    }
}

/// The first gates: a command that is always refused, and one that needs approval, where `denied` and
/// `approval` say what was found in it.
pub open spec fn command_gate(
    name: Seq<char>,
    denied: Option<Seq<char>>,
    approval: bool,
) -> GateV {
    if name != "command"@ {
        GateV::CheckTool
    } else {
        match denied {
            Some(reason) => GateV::Block {
                shown: Some(reason),
                reason: "Permission denied: "@ + reason,
            },
            None => if approval {
                GateV::AskCommand { reason: APPROVAL_REASON@ }
            } else {
                GateV::CheckTool
            },
        }
    }
}

/// What is said where the user refuses.
pub open spec fn refused() -> GateV {
    GateV::Block { shown: None, reason: "Permission denied by user"@ }
}

/// The view of what a tool says of a call.
pub open spec fn check_view(check: Option<PermissionCheck>) -> Option<Seq<char>> {
    match check {
        Some(PermissionCheck::NeedsApproval(reason)) => Some(reason@),
        _ => None,
    }
}

/// The gates of a tool call, where the user's answers are as given and `tool` is what the tool wants
/// the user to approve, if anything: why the call is blocked, or nothing where it may run.
pub open spec fn permission_outcome(
    name: Seq<char>,
    denied: Option<Seq<char>>,
    approval: bool,
    command_answer: bool,
    tool: Option<Seq<char>>,
    tool_answer: bool,
) -> Option<Seq<char>> {
    if name == "command"@ && denied is Some {
        Some("Permission denied: "@ + denied->0)
    } else if name == "command"@ && approval && !command_answer {
        Some("Permission denied by user"@)
    } else if tool is Some && !tool_answer {
        Some("Permission denied by user"@)
    } else {
        None
    }
}

/// Three gates in series: refused commands, commands that the user approves, and what the tool itself
/// wants to have approved.
pub struct PermissionHook;

impl PermissionHook {
    /// The first gates of a tool call.
    pub fn start(&self, name: &str, input: &Json) -> (r: Gate)
        ensures
            r@ == command_gate(
                name@,
                deny_reason(command_of(input@)),
                approval_needed(command_of(input@)),
            ),
    {
        if !str_eq(name, "command") {
            return Gate::CheckTool;
        }
        let command = match input.str_field("command") {
            Some(c) => c,
            None => "",
        };
        match check_deny_patterns(command) {
            Some(reason) => Gate::Block {
                shown: Some(owned(reason)),
                reason: concat2("Permission denied: ", reason),
            },
            None => match requires_approval(command) {
                Some(reason) => Gate::AskCommand { reason: owned(reason) },
                None => Gate::CheckTool,
            },
        }
    }

    /// The user has answered about the command.
    pub fn command_answered(&self, granted: bool) -> (r: Gate)
        ensures
            r@ == if granted {
                GateV::CheckTool
            } else {
                refused()
            },
    {
        if granted {
            Gate::CheckTool
        } else {
            Gate::Block { shown: None, reason: owned("Permission denied by user") }
        }
    }

    /// The tool has been asked; `None` where there is no such tool.
    pub fn tool_checked(&self, check: Option<PermissionCheck>) -> (r: Gate)
        ensures
            r@ == match check_view(check) {
                Some(reason) => GateV::AskTool { reason },
                None => GateV::Allow,
            },
    {
        match check {
            Some(PermissionCheck::NeedsApproval(reason)) => Gate::AskTool { reason },
            _ => Gate::Allow,
        }
    }

    /// The user has answered about the tool call.
    pub fn tool_answered(&self, granted: bool) -> (r: Gate)
        ensures
            r@ == if granted {
                GateV::Allow
            } else {
                refused()
            },
    {
        if granted {
            Gate::Allow
        } else {
            Gate::Block { shown: None, reason: owned("Permission denied by user") }
        }
    }

    /// All gates of a tool call, where the user would answer as given: why the call is blocked, or
    /// nothing where it may run.
    pub fn on_pre_tool(
        &self,
        name: &str,
        input: &Json,
        command_answer: bool,
        check: Option<PermissionCheck>,
        tool_answer: bool,
    ) -> (r: Option<String>)
        ensures
            r.deep_view() == permission_outcome(
                name@,
                deny_reason(command_of(input@)),
                approval_needed(command_of(input@)),
                command_answer,
                check_view(check),
                tool_answer,
            ),
    {
        let gate = match self.start(name, input) {
            Gate::AskCommand { .. } => self.command_answered(command_answer),
            other => other,
        };
        let gate = match gate {
            Gate::CheckTool => self.tool_checked(check),
            other => other,
        };
        let gate = match gate {
            Gate::AskTool { .. } => self.tool_answered(tool_answer),
            other => other,
        };
        match gate {
            Gate::Block { shown: _, reason } => Some(reason),
            _ => None,
        }
    }
}

/// A command of the deny list is blocked whatever the user would answer and whatever the tool says.
pub proof fn lemma_denied_is_blocked(
    denied: Seq<char>,
    approval: bool,
    command_answer: bool,
    tool: Option<Seq<char>>,
    tool_answer: bool,
)
    ensures
        permission_outcome(
            "command"@,
            Some(denied),
            approval,
            command_answer,
            tool,
            tool_answer,
        ) == Some("Permission denied: "@ + denied),
        command_gate("command"@, Some(denied), approval) is Block,
{
}

/// Without a user who answers, nothing that needs approval runs.
pub proof fn lemma_silence_denies(
    name: Seq<char>,
    denied: Option<Seq<char>>,
    approval: bool,
    tool: Option<Seq<char>>,
)
    requires
        (name == "command"@ && approval) || tool is Some,
    ensures
        permission_outcome(name, denied, approval, false, tool, false) is Some,
{
}

} // verus!

//! What the gates let through, whom the team takes in, and what both say.

use vstd::prelude::*;

use crate::background_tasks::tools::{asked_timeout, asks_to_block};
use crate::builtins::{
    approval_needed, approval_patterns, command_gate, deny_hits, deny_reason, deny_table,
    first_reason, large_warning, permission_outcome, GateV, LARGE_OUTPUT,
};
use crate::cron_scheduler::{input_flag, input_text};
use crate::frontmatter::{split_front, without_bom, without_leading_breaks};
use crate::hooks::first_some;
use crate::io::asked;
use crate::json::{bool_of, field, json_compact, text_field, JsonV};
use crate::pattern::{hits, meta_char, regex_escaped};
use crate::select::{
    holds, lemma_holds_next, lemma_holds_three, lemma_holds_two, lemma_selects_nothing,
    lemma_selects_push, selects,
};
use crate::task_system::task::{TaskStatus, TaskV};
use crate::team::runtime::{
    given_up, sends_view, spawn_refusal, spawned, taken, task_block, turn_followed, valid_name,
    without_member, GateStatus, TeammateStatus, WorkStep,
};
use crate::text::{byte_len, contains, decimal, lemma_index_of, occurs_at, trim};

verus! {

broadcast use vstd::string::group_string_axioms;

// ---- permission ----

/// The reason for a refusal is that of the first pattern that was found; there is none only where none
/// was.
pub proof fn lemma_first_reason(table: Seq<(Seq<char>, Seq<char>)>, found: Seq<bool>)
    requires
        table.len() == found.len(),
    ensures
        first_reason(table, found) is None <==> forall|i: int|
            0 <= i < found.len() ==> !#[trigger] found[i],
        first_reason(table, found) matches Some(r) ==> exists|k: int|
            0 <= k < found.len() && #[trigger] found[k] && r == table[k].1 && forall|i: int|
                0 <= i < k ==> !#[trigger] found[i],
    decreases table.len(),
{
    if table.len() > 0 && !found[0] {
        let rest = found.skip(1);
        let rows = table.skip(1);
        lemma_first_reason(rows, rest);
        assert forall|i: int| 0 <= i < rest.len() implies #[trigger] rest[i] == found[i + 1] by {}
        if let Some(r) = first_reason(rows, rest) {
            let k = choose|k: int|
                0 <= k < rest.len() && #[trigger] rest[k] && r == rows[k].1 && forall|i: int|
                    0 <= i < k ==> !#[trigger] rest[i];
            assert(found[k + 1]);
            assert forall|i: int| 0 <= i < k + 1 implies !#[trigger] found[i] by {
                if i > 0 {
                    assert(rest[i - 1] == found[i]);
                }
            }
        } else {
            assert forall|i: int| 0 <= i < found.len() implies !#[trigger] found[i] by {
                if i > 0 {
                    assert(rest[i - 1] == found[i]);
                }
            }
        }
    } else if table.len() > 0 {
        assert(found[0]);
    }
}

/// A call is let through where and only where no rule denies it and the user allowed whatever asked for
/// approval. Where a rule denies it, the refusal tells the rule's reason.
pub proof fn lemma_permission_is_judged(
    name: Seq<char>,
    denied: Option<Seq<char>>,
    approval: bool,
    command_answer: bool,
    tool: Option<Seq<char>>,
    tool_answer: bool,
)
    ensures
        permission_outcome(name, denied, approval, command_answer, tool, tool_answer) is None <==> (
        name == "command"@ ==> denied is None && (approval ==> command_answer)) && (tool is Some
            ==> tool_answer),
        name == "command"@ ==> (denied matches Some(reason) ==> (permission_outcome(
            name,
            denied,
            approval,
            command_answer,
            tool,
            tool_answer,
        ) matches Some(t) && reason.is_suffix_of(t))),
{
    if let Some(reason) = denied {
        let t = "Permission denied: "@ + reason;
        assert(t.subrange(t.len() - reason.len(), t.len() as int) =~= reason);
    }
}

/// A command that a rule denies is blocked, one that needs approval is put to the user, and
/// everything else is left to the tool itself to judge.
pub proof fn lemma_command_gate(name: Seq<char>, denied: Option<Seq<char>>, approval: bool)
    ensures
        command_gate(name, denied, approval) is Block <==> name == "command"@ && denied is Some,
        command_gate(name, denied, approval) is AskCommand <==> name == "command"@ && denied is None
            && approval,
        command_gate(name, denied, approval) is CheckTool <==> name != "command"@ || (denied is None
            && !approval),
        command_gate(name, denied, approval) matches GateV::Block { shown, reason } ==> shown
            == denied && denied->Some_0.is_suffix_of(reason),
{
    if let Some(reason) = denied {
        let t = "Permission denied: "@ + reason;
        assert(t.subrange(t.len() - reason.len(), t.len() as int) =~= reason);
    }
}

/// The user who is asked reads why, which tool and with what input.
pub proof fn lemma_question_tells(reason: Seq<char>, name: Seq<char>, input: JsonV)
    ensures
        holds(asked(reason, name, input), seq![reason, name, json_compact(input)]),
{
    lemma_holds_three("[PERMISSION] "@, reason, " "@, name, "("@, json_compact(input), ")"@);
}

/// A large output is warned of, and only a large one; the warning tells the tool and the size.
pub proof fn lemma_large_output_is_told(name: Seq<char>, output: Seq<char>)
    ensures
        large_warning(name, output) is Some <==> byte_len(output) > LARGE_OUTPUT,
        large_warning(name, output) matches Some(t) ==> holds(
            t,
            seq![name, decimal(byte_len(output) as nat)],
        ),
{
    lemma_holds_two(
        "[HOOK] Large output from "@,
        name,
        ": "@,
        decimal(byte_len(output) as nat),
        " chars"@,
    );
}

/// Of several hooks the first that answers decides; there is no answer only where none answers.
pub proof fn lemma_first_hook_decides(answers: Seq<Option<Seq<char>>>)
    ensures
        first_some(answers) is None <==> forall|i: int|
            0 <= i < answers.len() ==> (#[trigger] answers[i]) is None,
        first_some(answers) is Some ==> exists|k: int|
            0 <= k < answers.len() && first_some(answers) == #[trigger] answers[k] && forall|i: int|
                0 <= i < k ==> (#[trigger] answers[i]) is None,
    decreases answers.len(),
{
    if answers.len() > 0 && answers[0] is None {
        let rest = answers.skip(1);
        lemma_first_hook_decides(rest);
        assert forall|i: int| 0 <= i < rest.len() implies #[trigger] rest[i] == answers[i + 1] by {}
        if first_some(rest) is Some {
            let k = choose|k: int|
                0 <= k < rest.len() && first_some(rest) == #[trigger] rest[k] && forall|i: int|
                    0 <= i < k ==> (#[trigger] rest[i]) is None;
            assert(answers[k + 1] is Some);
            assert forall|i: int| 0 <= i < k + 1 implies (#[trigger] answers[i]) is None by {
                if i > 0 {
                    assert(rest[i - 1] == answers[i]);
                }
            }
        } else {
            assert forall|i: int| 0 <= i < answers.len() implies (#[trigger] answers[i]) is None by {
                if i > 0 {
                    assert(rest[i - 1] == answers[i]);
                }
            }
        }
    } else if answers.len() > 0 {
        assert(answers[0] is Some);
    }
}

// ---- the team ----

/// The member has another name.
pub open spec fn other_member(name: Seq<char>) -> spec_fn((Seq<char>, TeammateStatus)) -> bool {
    |m: (Seq<char>, TeammateStatus)| m.0 != name
}

/// The member as it is.
pub open spec fn the_member() -> spec_fn((Seq<char>, TeammateStatus)) -> (Seq<char>, TeammateStatus) {
    |m: (Seq<char>, TeammateStatus)| m
}

/// A member that leaves is gone, and every other stays, in order.
pub proof fn lemma_member_leaves(roster: Seq<(Seq<char>, TeammateStatus)>, name: Seq<char>)
    ensures
        selects(roster, without_member(roster, name), other_member(name), the_member()),
    decreases roster.len(),
{
    if roster.len() == 0 {
        lemma_selects_nothing::<(Seq<char>, TeammateStatus), (Seq<char>, TeammateStatus)>(
            other_member(name),
            the_member(),
        );
        assert(roster =~= Seq::<(Seq<char>, TeammateStatus)>::empty());
    } else {
        let front = roster.drop_last();
        lemma_member_leaves(front, name);
        lemma_selects_push(
            front,
            without_member(front, name),
            other_member(name),
            the_member(),
            roster.last(),
        );
        assert(front.push(roster.last()) =~= roster);
    }
}

/// A teammate is taken in where its name is valid, free and not reserved, there is a team, and the task
/// it is to work on could be claimed; it then works, behind a plan gate where a plan is required, and
/// the reply tells its name and role. Else the team stays as it is.
pub proof fn lemma_spawn_is_judged(
    roster: Seq<(Seq<char>, TeammateStatus)>,
    name: Seq<char>,
    role: Seq<char>,
    has_team: bool,
    claim: Option<Seq<char>>,
    require_plan: bool,
)
    ensures
        ({
            let (after, said, ok, gate) = spawned(
                roster,
                name,
                role,
                has_team,
                claim,
                require_plan,
            );
            &&& ok <==> spawn_refusal(roster, name, has_team) is None && (claim matches Some(c)
                ==> "Claimed"@.is_prefix_of(c))
            &&& ok ==> valid_name(name) && has_team && !taken(roster, name)
            &&& ok ==> after == roster.push((name, TeammateStatus::Working)) && holds(
                said,
                seq![name, role],
            )
            &&& ok ==> (gate == GateStatus::Required <==> require_plan)
            &&& !ok ==> after == roster && gate == GateStatus::NotRequired
            &&& !ok && spawn_refusal(roster, name, has_team) is None ==> holds(
                said,
                seq![name, claim->Some_0],
            )
        }),
{
    let e = Seq::<char>::empty();
    let z = ". End this turn; the runtime will deliver its events."@;
    lemma_holds_two("Teammate '"@, name, "' spawned as "@, role, z);
    if let Some(c) = claim {
        lemma_holds_two("Cannot spawn teammate '"@, name, "': "@, c, e);
        assert("Cannot spawn teammate '"@ + name + "': "@ + c + e =~= "Cannot spawn teammate '"@
            + name + "': "@ + c);
    }
}

/// What a teammate reads of its task tells the task's identifier, its subject, its whole description
/// and where to work, in order.
pub proof fn lemma_task_block_tells(lead: Seq<char>, t: TaskV, cwd: Seq<char>)
    ensures
        holds(task_block(lead, t, cwd), seq![t.id, t.subject, t.description, cwd]),
{
    let e = Seq::<char>::empty();
    lemma_holds_three(lead, t.id, "] "@, t.subject, "\n"@, t.description, e);
    let t3 = lead + t.id + "] "@ + t.subject + "\n"@ + t.description + e;
    let p3 = seq![t.id, t.subject, t.description];
    lemma_holds_next(t3, p3, "\nWork directory: "@, cwd);
    assert(t3 + "\nWork directory: "@ + cwd =~= task_block(lead, t, cwd));
    assert(p3.push(cwd) =~= seq![t.id, t.subject, t.description, cwd]);
}

/// A teammate that goes gives back the tasks it had in progress, for anyone to claim, and changes no
/// other.
pub proof fn lemma_task_is_given_back(t: TaskV, name: Seq<char>)
    ensures
        t.status == TaskStatus::InProgress && t.owner == Some(name) ==> given_up(t, name) == (TaskV {
            status: TaskStatus::Pending,
            owner: None,
            ..t
        }),
        !(t.status == TaskStatus::InProgress && t.owner == Some(name)) ==> given_up(t, name) == t,
{
}

// ---- documents ----

proof fn lemma_breaks_taken(s: Seq<char>) -> (n: int)
    ensures
        0 <= n <= s.len(),
        without_leading_breaks(s) == s.skip(n),
        forall|i: int| 0 <= i < n ==> #[trigger] s[i] == '\r' || s[i] == '\n',
        n < s.len() ==> s[n] != '\r' && s[n] != '\n',
    decreases s.len(),
{
    if s.len() > 0 && (s[0] == '\r' || s[0] == '\n') {
        let rest = s.skip(1);
        let n = lemma_breaks_taken(rest);
        assert(rest.skip(n) =~= s.skip(n + 1));
        assert forall|i: int| 0 <= i < n + 1 implies #[trigger] s[i] == '\r' || s[i] == '\n' by {
            if i > 0 {
                assert(rest[i - 1] == s[i]);
            }
        }
        n + 1
    } else {
        assert(s.skip(0) =~= s);
        0
    }
}

/// The front of a document is what stands between its opening mark and the next mark, and the body is
/// all that follows but for line breaks at its beginning. There is a front only where both marks are.
pub proof fn lemma_front_is_split(text: Seq<char>)
    ensures
        split_front(text) matches Some((block, body)) ==> {
            let s = without_bom(text);
            &&& "---"@.is_prefix_of(s)
            &&& !contains(block, "---"@)
            &&& exists|breaks: Seq<char>|
                s == "---"@ + block + "---"@ + #[trigger] (breaks + body) && forall|i: int|
                    0 <= i < breaks.len() ==> #[trigger] breaks[i] == '\r' || breaks[i] == '\n'
        },
        split_front(text) is None <==> !"---"@.is_prefix_of(without_bom(text)) || !contains(
            without_bom(text).skip(3),
            "---"@,
        ),
{
    reveal_strlit("---");
    let s = without_bom(text);
    let mark = "---"@;
    if mark.is_prefix_of(s) {
        let t = s.skip(3);
        lemma_index_of(t, mark);
        if let Some((block, body)) = split_front(text) {
            let k = crate::text::index_of(t, mark)->Some_0;
            let after = s.skip(3 + k + 3);
            let n = lemma_breaks_taken(after);
            let breaks = after.take(n);
            assert(occurs_at(t, mark, k));
            assert(t.subrange(k, k + 3) =~= mark);
            assert(s.subrange(0, 3) =~= mark);
            assert(breaks + body =~= after);
            assert(s =~= mark + block + mark + (breaks + body)) by {
                assert(s.subrange(3 + k, 3 + k + 3) =~= t.subrange(k, k + 3));
            }
            assert forall|i: int| 0 <= i < breaks.len() implies #[trigger] breaks[i] == '\r'
                || breaks[i] == '\n' by {
                assert(breaks[i] == after[i]);
            }
            if contains(block, mark) {
                let i = choose|i: int| occurs_at(block, mark, i);
                assert(block.subrange(i, i + 3) =~= t.subrange(i, i + 3));
                assert(occurs_at(t, mark, i));
            }
        }
    }
}

/// Escaping puts a backslash before each character that patterns give a meaning to, and nothing else:
/// pieces of text are escaped each by itself.
pub proof fn lemma_escaping(a: Seq<char>, b: Seq<char>, c: char)
    ensures
        regex_escaped(a + b) == regex_escaped(a) + regex_escaped(b),
        meta_char(c) ==> regex_escaped(seq![c]) == seq!['\\', c],
        !meta_char(c) ==> regex_escaped(seq![c]) == seq![c],
        regex_escaped(a).len() >= a.len(),
    decreases a.len() + b.len(),
{
    reveal_with_fuel(regex_escaped, 2);
    assert(seq![c].drop_last() =~= Seq::<char>::empty());
    assert(regex_escaped(Seq::<char>::empty()) =~= Seq::<char>::empty());
    assert(meta_char(c) ==> regex_escaped(seq![c]) =~= seq!['\\', c]);
    assert(!meta_char(c) ==> regex_escaped(seq![c]) =~= seq![c]);
    if b.len() == 0 {
        assert(a + b =~= a);
        if a.len() > 0 {
            lemma_escaping(a.drop_last(), b, c);
        }
    } else {
        lemma_escaping(a, b.drop_last(), c);
        assert((a + b).drop_last() =~= a + b.drop_last());
        assert((a + b).last() == b.last());
    }
    assert(regex_escaped(a + b) =~= regex_escaped(a) + regex_escaped(b));
}

/// A teammate that is done tells the lead its answer first, word for word, where it has one, and then
/// that it waits; one that is stopping or waits for its plan to be approved sends nothing.
pub proof fn lemma_result_is_sent(
    stopping: bool,
    gate: GateStatus,
    answer: Option<String>,
    r: WorkStep,
)
    requires
        turn_followed(stopping, gate, answer, r),
    ensures
        ({
            let sent = sends_view(r.sends@);
            let done = !stopping && gate != GateStatus::Pending;
            &&& done ==> sent.len() == if answer is Some {
                2int
            } else {
                1int
            }
            &&& done ==> (answer matches Some(t) ==> sent[0].0 == t@ && sent[0].1 == "result"@)
            &&& done ==> sent.last().1 == "idle_notification"@
            &&& !done ==> r.sends@.len() == 0
            &&& r.release <==> done
        }),
{
    let sent = sends_view(r.sends@);
    assert(sent.len() == r.sends@.len());
}

/// A command is denied where and only where a pattern of the deny list is found in it, for the reason of
/// the first that is.
pub proof fn lemma_deny_list(command: Seq<char>)
    ensures
        deny_reason(command) is None <==> forall|i: int|
            0 <= i < deny_table().len() ==> !hits((#[trigger] deny_table()[i]).0, command),
        deny_reason(command) matches Some(r) ==> exists|k: int|
            0 <= k < deny_table().len() && hits((#[trigger] deny_table()[k]).0, command) && r
                == deny_table()[k].1 && forall|i: int|
                0 <= i < k ==> !hits((#[trigger] deny_table()[i]).0, command),
{
    let table = deny_table();
    let found = deny_hits(command);
    assert(found.len() == table.len());
    lemma_first_reason(table, found);
    assert forall|i: int| 0 <= i < table.len() implies found[i] == hits(
        (#[trigger] table[i]).0,
        command,
    ) by {}
    if let Some(r) = deny_reason(command) {
        let k = choose|k: int|
            0 <= k < found.len() && #[trigger] found[k] && r == table[k].1 && forall|i: int|
                0 <= i < k ==> !#[trigger] found[i];
        assert(hits(table[k].0, command));
        assert forall|i: int| 0 <= i < k implies !hits((#[trigger] table[i]).0, command) by {
            assert(!found[i]);
        }
    } else {
        assert forall|i: int| 0 <= i < table.len() implies !hits(
            (#[trigger] table[i]).0,
            command,
        ) by {
            assert(!found[i]);
        }
    }
}

/// Every pattern of the commands that need approval counts by itself.
pub proof fn lemma_patterns_count(command: Seq<char>, i: int)
    requires
        0 <= i < approval_patterns().len(),
        hits(approval_patterns()[i], command),
    ensures
        approval_needed(command),
{
}

/// A flag that is not given, or is no flag, stands for yes; one that is given stands for itself.
pub proof fn lemma_flag_is_read(input: JsonV, key: Seq<char>)
    ensures
        field(input, key) is None ==> input_flag(input, key),
        field(input, key) matches Some(v) ==> (bool_of(v) matches Some(b) ==> input_flag(input, key)
            == b),
        field(input, key) matches Some(v) ==> (bool_of(v) is None ==> input_flag(input, key)),
        text_field(input, key) matches Some(t) ==> input_text(input, key) == t,
        text_field(input, key) is None ==> input_text(input, key).len() == 0,
{
}

/// How long a call waits for a task is what it asks for, and half a minute where it does not say; it
/// waits only where it asks to.
pub proof fn lemma_wait_is_read(input: JsonV)
    ensures
        asks_to_block(input) <==> (field(input, "block"@) matches Some(v) && v == JsonV::Bool(true)),
        field(input, "timeout_ms"@) is None ==> asked_timeout(input) == 30_000,
        field(input, "timeout_ms"@) matches Some(v) ==> (v matches JsonV::UInt(n) ==> asked_timeout(
            input,
        ) == n),
        field(input, "timeout_ms"@) matches Some(v) ==> (v matches JsonV::Int(n) ==> n >= 0
            ==> asked_timeout(input) == n),
{
}

/// Only a single letter grants a permission, in either case.
pub proof fn lemma_only_y_grants(line: Seq<char>)
    requires
        crate::render::input::grants(line),
    ensures
        trim(line).len() == 1,
        trim(line)[0] == 'y' || trim(line)[0] == 'Y',
{
    reveal_strlit("y");
    let t = trim(line);
    assert(crate::text::ascii_lower(t).len() == t.len());
    assert(crate::text::ascii_lower("y"@).len() == 1);
    assert(crate::text::ascii_lower_char(t[0]) == crate::text::ascii_lower_char('y')) by {
        assert(crate::text::ascii_lower(t)[0] == crate::text::ascii_lower("y"@)[0]);
    }
}

} // verus!

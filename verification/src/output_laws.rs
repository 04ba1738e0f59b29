//! What errors, values and shown results keep of what they are made from.

use vstd::prelude::*;

use crate::agent::{
    blocks_log, log_preview, messages_log, subagent_dir, teammate_dir, tool_results_in,
    transcripts_in, user_turn_of, UserTurnV,
};
use crate::compact::{output_file, persisted, safe_char, safe_id, saved_path, LARGE_RESULT_CHAR_LIMIT};
use crate::domain::message::{BlockV, MessageV};
use crate::error::{agent_error_text, bridged, llm_error_text, AgentError, LlmError};
use crate::goal::first_braced;
use crate::json::{field, field_index, json_compact, json_prefix, JsonV};
use crate::providers::CallResult;
use crate::providers::openai::{
    classified, gathered, log_block, log_blocks, stepped, with_choices, without_slashes, AnswerV,
    ChoiceV, ChunkV, StreamEvent, StreamStep,
};
use crate::render::{
    cut_note, line_ops, one_line, size_text, tenths, tool_content, tool_prefix, written, Op,
    TRUNCATE_AT,
};
use crate::select::{
    holds, lemma_holds_each, lemma_holds_itself, lemma_holds_next, lemma_holds_nothing,
    lemma_holds_three, lemma_holds_two, lemma_holds_within,
};
use crate::text::{
    byte_len, contains, decimal, first_chars, index_of, lemma_index_of, lines, occurs_at, path_in,
    trim, without_return,
};
use crate::text_laws::{lemma_decimal_tells_apart, lemma_path_parts, lemma_trim_takes};

verus! {

broadcast use vstd::string::group_string_axioms;

// ---- old results ----

proof fn lemma_line_off(a: Seq<char>, b: Seq<char>)
    requires
        !a.contains('\n'),
    ensures
        lines(a + seq!['\n'] + b) == seq![without_return(a)] + lines(b),
{
    let nl = seq!['\n'];
    let s = a + nl + b;
    lemma_index_of(s, nl);
    let n = a.len() as int;
    assert(s.subrange(n, n + 1) =~= nl);
    assert(occurs_at(s, nl, n));
    let k = index_of(s, nl)->Some_0;
    if k < n {
        assert(s.subrange(k, k + 1)[0] == s[k]);
        assert(a[k] == '\n');
    }
    assert(k == n);
    assert(s.take(n) =~= a);
    assert(s.skip(n + 1) =~= b);
}

/// The path of a moved output outlives it: the note that later stands for it still tells the file that
/// keeps the whole of it, wherever the directory's name has no line feed.
pub proof fn lemma_saved_path_survives(dir: Seq<char>, call_id: Seq<char>, output: Seq<char>)
    requires
        !dir.contains('\n'),
        byte_len(output) > LARGE_RESULT_CHAR_LIMIT,
    ensures
        saved_path(lines(persisted(dir, true, call_id, output))) == Some(
            path_in(dir, output_file(call_id)),
        ),
{
    reveal_strlit("<persisted-output>\nFull output: ");
    reveal_strlit("\nPreview:\n");
    reveal_strlit("Full output: ");
    reveal_strlit("<persisted-output>");
    reveal_strlit(".txt");
    reveal_strlit("unknown");
    reveal_strlit("/");
    let file = output_file(call_id);
    let path = path_in(dir, file);
    let label = "Full output: "@;
    let first = "<persisted-output>"@;
    let rest = "Preview:\n"@ + first_chars(output, 2000) + "\n</persisted-output>"@;
    reveal_strlit("Preview:\n");
    let nl = seq!['\n'];
    assert("<persisted-output>\nFull output: "@ =~= first + nl + label);
    assert("\nPreview:\n"@ =~= nl + "Preview:\n"@);
    let out = persisted(dir, true, call_id, output);
    let second = label + path;
    assert(out =~= first + nl + (second + nl + rest));
    assert(!first.contains('\n'));
    assert forall|i: int| 0 <= i < file.len() implies #[trigger] file[i] != '\n' by {
        let id = safe_id(call_id);
        if i < id.len() && call_id.len() > 0 {
            assert(id[i] == safe_char(call_id[i]));
        }
    }
    if second.contains('\n') {
        let i = choose|i: int| 0 <= i < second.len() && second[i] == '\n';
        let k = i - label.len();
        if k >= 0 {
            assert(path[k] == '\n');
            if k < dir.len() {
                assert(dir[k] == '\n');
            } else if dir.len() == 0 || dir.last() == '/' {
                assert(file[k - dir.len()] == '\n');
            } else if k > dir.len() {
                assert(file[k - dir.len() - 1] == '\n');
            }
        }
    }
    assert(file.last() == 't');
    assert(path.last() == 't');
    assert(second.last() == 't');
    lemma_line_off(first, second + nl + rest);
    lemma_line_off(second, rest);
    let ls = lines(out);
    assert(first.last() == '>');
    assert(ls[0] == first);
    assert(ls.skip(1) =~= lines(second + nl + rest));
    assert(ls.skip(1)[0] == second);
    assert(first[0] == '<');
    if label.is_prefix_of(first) {
        assert(first.subrange(0, label.len() as int)[0] == label[0]);
    }
    assert(second.subrange(0, label.len() as int) =~= label);
    assert(second.skip(label.len() as int) =~= path);
    reveal_with_fuel(saved_path, 3);
}

// ---- streams ----

/// What the last chunk that tells any tells of the usage.
pub open spec fn told_usage(chunks: Seq<ChunkV>) -> Option<(u32, u32)>
    decreases chunks.len(),
{
    if chunks.len() == 0 {
        None
    } else if chunks.last().usage is Some {
        chunks.last().usage
    } else {
        told_usage(chunks.drop_last())
    }
}

proof fn lemma_choices_keep_usage(a: AnswerV, cs: Seq<ChoiceV>)
    ensures
        with_choices(a, cs).usage == a.usage,
    decreases cs.len(),
{
    if cs.len() > 0 {
        lemma_choices_keep_usage(a, cs.drop_last());
    }
}

/// The usage of an answer is the one that was told last: what was read and what was written, each as it
/// was told.
pub proof fn lemma_usage_is_told(chunks: Seq<ChunkV>)
    ensures
        gathered(chunks).usage is None <==> told_usage(chunks) is None,
        told_usage(chunks) matches Some((i, o)) ==> gathered(chunks).usage->Some_0.input_tokens == i
            && gathered(chunks).usage->Some_0.output_tokens == o,
    decreases chunks.len(),
{
    if chunks.len() > 0 {
        let front = chunks.drop_last();
        lemma_usage_is_told(front);
        lemma_choices_keep_usage(
            crate::providers::openai::with_usage(gathered(front), chunks.last()),
            chunks.last().choices,
        );
    }
}

/// The base address loses the slashes at its end, all of them, and nothing else.
pub proof fn lemma_slashes_taken(s: Seq<char>)
    ensures
        ({
            let r = without_slashes(s);
            &&& r.is_prefix_of(s)
            &&& r.len() > 0 ==> r.last() != '/'
            &&& forall|i: int| r.len() <= i < s.len() ==> #[trigger] s[i] == '/'
        }),
    decreases s.len(),
{
    let r = without_slashes(s);
    if s.len() > 0 && s.last() == '/' {
        let front = s.drop_last();
        lemma_slashes_taken(front);
        assert(r.is_prefix_of(front));
        assert(s.subrange(0, r.len() as int) =~= front.subrange(0, r.len() as int));
        assert forall|i: int| r.len() <= i < s.len() implies #[trigger] s[i] == '/' by {
            if i < front.len() {
                assert(front[i] == s[i]);
            }
        }
    } else {
        assert(s.subrange(0, s.len() as int) =~= s);
    }
}

// ---- values ----

/// A field is the first of its name; there is none only where no field has the name.
pub proof fn lemma_field_is_first(fields: Seq<(Seq<char>, JsonV)>, key: Seq<char>)
    ensures
        field(JsonV::Object(fields), key) is None <==> forall|i: int|
            0 <= i < fields.len() ==> (#[trigger] fields[i]).0 != key,
        field(JsonV::Object(fields), key) matches Some(v) ==> exists|k: int|
            0 <= k < fields.len() && #[trigger] fields[k] == (key, v) && forall|i: int|
                0 <= i < k ==> (#[trigger] fields[i]).0 != key,
{
    lemma_field_index(fields, key);
    let k = field_index(fields, key);
    if k < fields.len() {
        assert(fields[k].0 == key);
    }
}

proof fn lemma_field_index(fields: Seq<(Seq<char>, JsonV)>, key: Seq<char>)
    ensures
        0 <= field_index(fields, key) <= fields.len(),
        field_index(fields, key) < fields.len() ==> fields[field_index(fields, key)].0 == key,
        forall|i: int| 0 <= i < field_index(fields, key) ==> (#[trigger] fields[i]).0 != key,
    decreases fields.len(),
{
    if fields.len() > 0 && fields[0].0 != key {
        let rest = fields.skip(1);
        lemma_field_index(rest, key);
        assert forall|i: int| 0 <= i < field_index(fields, key) implies (#[trigger] fields[i]).0
            != key by {
            if i > 0 {
                assert(rest[i - 1] == fields[i]);
            }
        }
    }
}

/// The object in an answer is the one that begins at the first opening brace from which a value can be
/// read.
pub proof fn lemma_first_braced(s: Seq<char>)
    ensures
        first_braced(s) is Some ==> exists|k: int|
            0 <= k < s.len() && #[trigger] s[k] == '{' && json_prefix(s.skip(k)) == first_braced(s)
                && forall|i: int|
                0 <= i < k ==> !(#[trigger] s[i] == '{' && json_prefix(s.skip(i)) is Some),
        first_braced(s) is None ==> forall|i: int|
            0 <= i < s.len() ==> !(#[trigger] s[i] == '{' && json_prefix(s.skip(i)) is Some),
    decreases s.len(),
{
    if s.len() > 0 {
        assert(s.skip(0) =~= s);
        if s[0] == '{' && json_prefix(s) is Some {
            assert(s[0] == '{');
        } else {
            let rest = s.skip(1);
            lemma_first_braced(rest);
            assert forall|i: int| 0 <= i < rest.len() implies #[trigger] rest.skip(i) == s.skip(
                i + 1,
            ) by {
                assert(rest.skip(i) =~= s.skip(i + 1));
            }
            if first_braced(rest) is Some {
                let k = choose|k: int|
                    0 <= k < rest.len() && #[trigger] rest[k] == '{' && json_prefix(rest.skip(k))
                        == first_braced(rest) && forall|i: int|
                        0 <= i < k ==> !(#[trigger] rest[i] == '{' && json_prefix(
                            rest.skip(i),
                        ) is Some);
                assert(s[k + 1] == '{');
                assert(rest.skip(k) == s.skip(k + 1));
                assert forall|i: int| 0 <= i < k + 1 implies !(#[trigger] s[i] == '{'
                    && json_prefix(s.skip(i)) is Some) by {
                    if i > 0 {
                        assert(rest[i - 1] == s[i]);
                        assert(rest.skip(i - 1) == s.skip(i));
                    }
                }
            } else {
                assert forall|i: int| 0 <= i < s.len() implies !(#[trigger] s[i] == '{'
                    && json_prefix(s.skip(i)) is Some) by {
                    if i > 0 {
                        assert(rest[i - 1] == s[i]);
                        assert(rest.skip(i - 1) == s.skip(i));
                    }
                }
            }
        }
    }
}

/// What a user types is a prompt, without white space around it, unless it begins with the word that
/// sets goals.
pub proof fn lemma_user_turn(query: Seq<char>)
    ensures
        user_turn_of(query) is GoalStatus <==> trim(query) == "/goal"@,
        user_turn_of(query) matches UserTurnV::Prompt(t) ==> t == trim(query) && t != "/goal"@
            && !"/goal "@.is_prefix_of(t),
        user_turn_of(query) matches UserTurnV::GoalSet(t) ==> "/goal "@.is_prefix_of(trim(query))
            && t == trim(trim(query).skip("/goal "@.len() as int)),
        !"/goal "@.is_prefix_of(trim(query)) && trim(query) != "/goal"@ ==> user_turn_of(query)
            == UserTurnV::Prompt(trim(query)),
{
}

// ---- errors ----

/// An error of the model keeps what it says when it becomes the agent's: the message, or how long was
/// waited; and what the user reads of it holds that.
pub proof fn lemma_error_keeps_message(e: LlmError)
    ensures
        match e {
            LlmError::AuthError(m) => bridged(e) == (AgentError::Api { status: 401, body: m }),
            LlmError::RateLimit(m) => bridged(e) == (AgentError::Api { status: 429, body: m }),
            LlmError::PromptTooLong(m) => bridged(e) == (AgentError::Api { status: 400, body: m }),
            LlmError::Network(m) => bridged(e) == AgentError::Network(m),
            LlmError::Stream(m) => bridged(e) == AgentError::Stream(m),
            LlmError::InvalidResponse(m) => bridged(e) == AgentError::InvalidResponse(m),
            LlmError::Other(m) => bridged(e) == AgentError::Other(m),
            LlmError::Timeout { seconds } => bridged(e) == (AgentError::Timeout { seconds }),
        },
        match e {
            LlmError::AuthError(m) => m@.is_suffix_of(llm_error_text(e)),
            LlmError::RateLimit(m) => m@.is_suffix_of(llm_error_text(e)),
            LlmError::PromptTooLong(m) => m@.is_suffix_of(llm_error_text(e)),
            LlmError::Network(m) => m@.is_suffix_of(llm_error_text(e)),
            LlmError::Stream(m) => m@.is_suffix_of(llm_error_text(e)),
            LlmError::InvalidResponse(m) => m@.is_suffix_of(llm_error_text(e)),
            LlmError::Other(m) => llm_error_text(e) == m@,
            LlmError::Timeout { seconds } => contains(
                llm_error_text(e),
                decimal(seconds as nat),
            ),
        },
{
    let t = llm_error_text(e);
    match e {
        LlmError::AuthError(m) => {
            assert(t.subrange(t.len() - m@.len(), t.len() as int) =~= m@);
        },
        LlmError::RateLimit(m) => {
            assert(t.subrange(t.len() - m@.len(), t.len() as int) =~= m@);
        },
        LlmError::PromptTooLong(m) => {
            assert(t.subrange(t.len() - m@.len(), t.len() as int) =~= m@);
        },
        LlmError::Network(m) => {
            assert(t.subrange(t.len() - m@.len(), t.len() as int) =~= m@);
        },
        LlmError::Stream(m) => {
            assert(t.subrange(t.len() - m@.len(), t.len() as int) =~= m@);
        },
        LlmError::InvalidResponse(m) => {
            assert(t.subrange(t.len() - m@.len(), t.len() as int) =~= m@);
        },
        LlmError::Other(m) => {},
        LlmError::Timeout { seconds } => {
            let d = decimal(seconds as nat);
            lemma_holds_itself(d);
            lemma_holds_within("Timeout after "@, d, "s"@, seq![d]);
            lemma_holds_each(t, seq![d], 0);
        },
    }
}

/// The text of a tool's error names the tool and tells why.
pub proof fn lemma_tool_error_tells(e: AgentError)
    ensures
        e matches AgentError::ToolRejected { name, reason } ==> holds(
            agent_error_text(e),
            seq![name@, reason@],
        ),
        e matches AgentError::ToolDenied { name, reason } ==> holds(
            agent_error_text(e),
            seq![name@, reason@],
        ),
        e matches AgentError::ToolExecution { name, reason } ==> holds(
            agent_error_text(e),
            seq![name@, reason@],
        ),
        e matches AgentError::ToolNotFound { name, available } ==> holds(
            agent_error_text(e),
            seq![name@, available@],
        ),
        e matches AgentError::Api { status, body } ==> holds(
            agent_error_text(e),
            seq![decimal(status as nat), body@],
        ),
{
    let t = agent_error_text(e);
    let z = Seq::<char>::empty();
    match e {
        AgentError::ToolRejected { name, reason } => {
            lemma_holds_two("Tool '"@, name@, "' rejected: "@, reason@, z);
            assert("Tool '"@ + name@ + "' rejected: "@ + reason@ + z =~= t);
        },
        AgentError::ToolDenied { name, reason } => {
            lemma_holds_two("Tool '"@, name@, "' denied: "@, reason@, z);
            assert("Tool '"@ + name@ + "' denied: "@ + reason@ + z =~= t);
        },
        AgentError::ToolExecution { name, reason } => {
            lemma_holds_two("Tool '"@, name@, "' execution failed: "@, reason@, z);
            assert("Tool '"@ + name@ + "' execution failed: "@ + reason@ + z =~= t);
        },
        AgentError::ToolNotFound { name, available } => {
            lemma_holds_two("Tool '"@, name@, "' not found. Available tools: "@, available@, z);
            assert("Tool '"@ + name@ + "' not found. Available tools: "@ + available@ + z =~= t);
        },
        AgentError::Api { status, body } => {
            let d = decimal(status as nat);
            lemma_holds_two("API error (HTTP "@, d, "): "@, body@, z);
            assert("API error (HTTP "@ + d + "): "@ + body@ + z =~= t);
        },
        _ => {},
    }
}

// ---- shown results ----

/// A result is shown on one line: line breaks become spaces, and no other character inside changes.
pub proof fn lemma_one_line(s: Seq<char>)
    ensures
        forall|i: int|
            0 <= i < one_line(s).len() ==> #[trigger] one_line(s)[i] != '\n' && one_line(s)[i]
                != '\r',
        exists|a: int, b: int|
            0 <= a <= b <= s.len() && same_but_breaks(one_line(s), #[trigger] s.subrange(a, b)),
{
    let t = s.map_values(|c: char| if c == '\n' || c == '\r' { ' ' } else { c });
    lemma_trim_takes(t);
    let (a, b) = choose|a: int, b: int|
        0 <= a <= b <= t.len() && trim(t) == #[trigger] t.subrange(a, b)
            && crate::text_laws::all_white(t.take(a)) && crate::text_laws::all_white(t.skip(b));
    assert(one_line(s) == t.subrange(a, b));
    assert forall|i: int| 0 <= i < one_line(s).len() implies #[trigger] one_line(s)[i] != '\n'
        && one_line(s)[i] != '\r' by {
        assert(one_line(s)[i] == t[a + i]);
    }
    let part = s.subrange(a, b);
    assert forall|i: int| 0 <= i < part.len() && part[i] != '\n' && part[i] != '\r' implies #[trigger] one_line(
    s)[i] == part[i] by {
        assert(one_line(s)[i] == t[a + i]);
    }
    assert(same_but_breaks(one_line(s), part));
}

/// The same characters but for line breaks.
pub open spec fn same_but_breaks(shown: Seq<char>, s: Seq<char>) -> bool {
    shown.len() == s.len() && forall|i: int|
        0 <= i < s.len() && s[i] != '\n' && s[i] != '\r' ==> #[trigger] shown[i] == s[i]
}

/// A result that is not too long is shown whole; of a longer one its first 200 characters are shown and
/// the note tells how many it has.
pub proof fn lemma_result_is_shown(name: Seq<char>, size: Seq<char>, result: Seq<char>)
    ensures
        one_line(result).len() <= TRUNCATE_AT ==> tool_content(result) == one_line(result),
        one_line(result).len() > TRUNCATE_AT ==> tool_content(result).len() > TRUNCATE_AT
            && tool_content(result).take(TRUNCATE_AT as int) == one_line(result).take(
            TRUNCATE_AT as int,
        ),
        contains(cut_note(one_line(result).len()), decimal(one_line(result).len())),
        holds(tool_prefix(name, size), seq![name, size]),
{
    reveal_strlit("…");
    let line = one_line(result);
    if line.len() > TRUNCATE_AT {
        assert(tool_content(result).take(TRUNCATE_AT as int) =~= line.take(TRUNCATE_AT as int));
    }
    let d = decimal(line.len());
    lemma_holds_itself(d);
    lemma_holds_within("  (已截断，共 "@, d, " 字符)"@, seq![d]);
    lemma_holds_each(cut_note(line.len()), seq![d], 0);
    lemma_holds_two("↳ "@, name, " 结果 ("@, size, "): "@);
}

/// A size in tenths of a unit is the nearest there is.
pub proof fn lemma_tenths_are_nearest(n: nat, unit: nat)
    requires
        unit > 0,
    ensures
        2 * (tenths(n, unit) * unit - n * 10) <= unit,
        2 * (n * 10 - tenths(n, unit) * unit) <= unit,
{
    let whole = n * 10 / unit;
    let left = n * 10 % unit;
    assert(n * 10 == whole * unit + left && left < unit) by {
        vstd::arithmetic::div_mod::lemma_fundamental_div_mod((n * 10) as int, unit as int);
        vstd::arithmetic::div_mod::lemma_mod_bound((n * 10) as int, unit as int);
        assert(unit * whole == whole * unit) by (nonlinear_arith);
    }
    assert((whole + 1) * unit == whole * unit + unit) by (nonlinear_arith);
}

/// A failure is a prompt that was too long where and only where the error says so, and keeps the error.
pub proof fn lemma_failure_is_classified(e: LlmError)
    ensures
        e is PromptTooLong ==> classified(e) == CallResult::PromptTooLong(e),
        e !is PromptTooLong ==> classified(e) == CallResult::Failure(e),
{
}

/// The log of a response tells every block, in order: a text whole, a call with its identifier, its name
/// and its input, an output with the identifier of its call and its content.
pub proof fn lemma_log_tells(s: Seq<BlockV>)
    ensures
        holds(log_blocks(s), Seq::new(s.len(), |i: int| log_block(i as nat, s[i]))),
        forall|i: int| 0 <= i < s.len() ==> logs(log_block(i as nat, #[trigger] s[i]), s[i]),
    decreases s.len(),
{
    let all = Seq::new(s.len(), |i: int| log_block(i as nat, s[i]));
    if s.len() == 0 {
        lemma_holds_nothing(log_blocks(s));
        assert(all =~= Seq::<Seq<char>>::empty());
    } else {
        let front = s.drop_last();
        let before = Seq::new(front.len(), |i: int| log_block(i as nat, front[i]));
        let own = log_block((s.len() - 1) as nat, s.last());
        lemma_log_tells(front);
        lemma_holds_next(log_blocks(front), before, Seq::empty(), own);
        assert(before.push(own) =~= all);
        assert(log_blocks(front) + Seq::<char>::empty() + own =~= log_blocks(s));
    }
    assert forall|i: int| 0 <= i < s.len() implies logs(
        log_block(i as nat, #[trigger] s[i]),
        s[i],
    ) by {
        lemma_block_logged(i as nat, s[i]);
    }
}

/// The text tells the parts of the block.
pub open spec fn logs(text: Seq<char>, b: BlockV) -> bool {
    match b {
        BlockV::Text { text: t } => contains(text, t),
        BlockV::ToolCall { id, name, input } => holds(text, seq![id, name, json_compact(input)]),
        BlockV::ToolOutput { call_id, content } => holds(text, seq![call_id, content]),
    }
}

proof fn lemma_block_logged(i: nat, b: BlockV)
    ensures
        logs(log_block(i, b), b),
{
    let head = "[resp] block["@ + decimal(i);
    let out = log_block(i, b);
    match b {
        BlockV::Text { text } => {
            let end = if "\n"@.is_suffix_of(text) {
                Seq::empty()
            } else {
                "\n"@
            };
            lemma_holds_itself(text);
            lemma_holds_within(head + "] text:\n"@, text, end, seq![text]);
            assert(head + "] text:\n"@ + text + end =~= out);
            lemma_holds_each(out, seq![text], 0);
        },
        BlockV::ToolCall { id, name, input } => {
            let json = json_compact(input);
            lemma_holds_three(head + "] tool_call("@, id, ": "@, name, "): "@, json, "\n"@);
            assert(head + "] tool_call("@ + id + ": "@ + name + "): "@ + json + "\n"@ =~= out);
        },
        BlockV::ToolOutput { call_id, content } => {
            lemma_holds_two(head + "] tool_output("@, call_id, "): "@, content, "\n"@);
            assert(head + "] tool_output("@ + call_id + "): "@ + content + "\n"@ =~= out);
        },
    }
}

/// An interrupted call is cancelled; a call that could not be opened or broke off fails with its own
/// error; one that took too long fails and tells the limit; and a chunk never ends a call.
pub proof fn lemma_stream_events(a: AnswerV, e: StreamEvent, r: StreamStep)
    requires
        stepped(a, e, r),
    ensures
        e is Chunk <==> r is Waiting,
        e is Interrupted ==> r == StreamStep::Done(CallResult::Cancelled),
        e matches StreamEvent::OpenFailed(error) ==> r == StreamStep::Done(
            if error is PromptTooLong {
                CallResult::PromptTooLong(error)
            } else {
                CallResult::Failure(error)
            },
        ),
        e matches StreamEvent::ChunkFailed(error) ==> r == StreamStep::Done(
            if error is PromptTooLong {
                CallResult::PromptTooLong(error)
            } else {
                CallResult::Failure(error)
            },
        ),
        e matches StreamEvent::OpenTimedOut { limit } ==> (r matches StreamStep::Done(
            CallResult::Failure(LlmError::Stream(m)),
        ) && contains(m@, limit@)),
        e matches StreamEvent::IdleTimedOut { limit } ==> (r matches StreamStep::Done(
            CallResult::Failure(LlmError::Stream(m)),
        ) && contains(m@, limit@)),
{
    match e {
        StreamEvent::OpenTimedOut { limit } => {
            let t = "request timed out after "@ + limit@ + " (connect+headers)"@;
            lemma_holds_itself(limit@);
            lemma_holds_within(
                "request timed out after "@,
                limit@,
                " (connect+headers)"@,
                seq![limit@],
            );
            lemma_holds_each(t, seq![limit@], 0);
        },
        StreamEvent::IdleTimedOut { limit } => {
            let a = "stream idle timeout: no chunk within "@;
            let t = a + limit@;
            lemma_holds_itself(limit@);
            lemma_holds_within(a, limit@, Seq::empty(), seq![limit@]);
            assert(a + limit@ + Seq::<char>::empty() =~= t);
            lemma_holds_each(t, seq![limit@], 0);
        },
        _ => {},
    }
}

// ---- logs, sizes and places ----

/// A preview is the whole text where it is short; of a longer one it begins with the first 100
/// characters and tells how many more there are.
pub proof fn lemma_preview_tells(s: Seq<char>)
    ensures
        s.len() <= 100 ==> log_preview(s) == s,
        s.len() > 100 ==> s.take(100).is_prefix_of(log_preview(s)) && contains(
            log_preview(s),
            decimal((s.len() - 100) as nat),
        ),
{
    if s.len() > 100 {
        let d = decimal((s.len() - 100) as nat);
        let head = first_chars(s, 100);
        assert(head =~= s.take(100));
        lemma_holds_itself(d);
        lemma_holds_within(head + "… (+"@, d, " chars)"@, seq![d]);
        assert(head + "… (+"@ + d + " chars)"@ =~= log_preview(s));
        lemma_holds_each(log_preview(s), seq![d], 0);
        assert(log_preview(s).subrange(0, 100) =~= s.take(100));
    }
}

/// The log of a conversation tells the blocks of every message, in order.
pub proof fn lemma_conversation_log_tells(messages: Seq<MessageV>)
    ensures
        holds(messages_log(messages), messages.map_values(|m: MessageV| blocks_log(m.content))),
    decreases messages.len(),
{
    let all = messages.map_values(|m: MessageV| blocks_log(m.content));
    if messages.len() == 0 {
        lemma_holds_nothing(messages_log(messages));
        assert(all =~= Seq::<Seq<char>>::empty());
    } else {
        let front = messages.drop_last();
        let m = messages.last();
        let before = front.map_values(|m: MessageV| blocks_log(m.content));
        let head = " ["@ + decimal((messages.len() - 1) as nat) + "] role="@
            + crate::domain::message::role_word(m.role) + " blocks="@ + decimal(m.content.len())
            + "\n"@;
        lemma_conversation_log_tells(front);
        lemma_holds_next(messages_log(front), before, head, blocks_log(m.content));
        assert(before.push(blocks_log(m.content)) =~= all);
        assert(messages_log(front) + head + blocks_log(m.content) =~= messages_log(messages));
    }
}

/// A size under a kilobyte is told exactly.
pub proof fn lemma_small_size_is_exact(bytes: nat)
    requires
        bytes < 1024,
    ensures
        decimal(bytes).is_prefix_of(size_text(bytes)),
{
    let d = decimal(bytes);
    assert(size_text(bytes).subrange(0, d.len() as int) =~= d);
}

/// Writing a line adds the line and a line feed to what was written, and flushing adds nothing.
pub proof fn lemma_line_is_written(ops: Seq<Op>, line: Seq<char>)
    ensures
        written(ops + line_ops(line)) == written(ops) + line + "\n"@,
        written(ops.push(Op::Flush)) == written(ops),
        written(ops.push(Op::Write(line))) == written(ops) + line,
{
    let a = ops.push(Op::Write(line));
    let b = a.push(Op::Write("\n"@));
    let c = b.push(Op::Flush);
    assert(ops + line_ops(line) =~= c);
    assert(c.drop_last() =~= b);
    assert(b.drop_last() =~= a);
    assert(a.drop_last() =~= ops);
    assert(ops.push(Op::Flush).drop_last() =~= ops);
    assert(written(a) == written(ops) + line);
    assert(written(b) == written(a) + "\n"@);
    assert(written(c) == written(b));
}

/// Different names in one directory have different paths.
pub proof fn lemma_paths_differ(dir: Seq<char>, x: Seq<char>, y: Seq<char>)
    requires
        path_in(dir, x) == path_in(dir, y),
    ensures
        x == y,
{
    let lead = if dir.len() == 0 || dir.last() == '/' {
        dir
    } else {
        dir + "/"@
    };
    assert(path_in(dir, x) =~= lead + x);
    assert(path_in(dir, y) =~= lead + y);
    assert((lead + x).skip(lead.len() as int) =~= x);
    assert((lead + y).skip(lead.len() as int) =~= y);
}

/// Subagents of different numbers work in different directories.
pub proof fn lemma_subagents_apart(workdir: Seq<char>, a: u64, b: u64)
    requires
        subagent_dir(workdir, a) == subagent_dir(workdir, b),
    ensures
        a == b,
{
    let lead = "subagent_"@;
    let x = lead + decimal(a as nat);
    let y = lead + decimal(b as nat);
    lemma_paths_differ(path_in(workdir, ".subagents"@), x, y);
    assert(x.skip(lead.len() as int) =~= decimal(a as nat));
    assert(y.skip(lead.len() as int) =~= decimal(b as nat));
    lemma_decimal_tells_apart(a as nat, b as nat);
}

/// What the agents write lies below the directories they work in.
pub proof fn lemma_places_lie_below(workdir: Seq<char>, name: Seq<char>, n: u64)
    ensures
        workdir.is_prefix_of(transcripts_in(workdir)),
        path_in(workdir, ".subagents"@).is_prefix_of(subagent_dir(workdir, n)),
        path_in(workdir, ".teammates"@).is_prefix_of(teammate_dir(workdir, name)),
        name.is_suffix_of(teammate_dir(workdir, name)),
        path_in(workdir, ".task_outputs"@).is_prefix_of(tool_results_in(workdir)),
{
    lemma_path_parts(workdir, ".transcripts"@);
    lemma_path_parts(path_in(workdir, ".subagents"@), "subagent_"@ + decimal(n as nat));
    lemma_path_parts(path_in(workdir, ".teammates"@), name);
    lemma_path_parts(path_in(workdir, ".task_outputs"@), "tool-results"@);
}

} // verus!

//! The boundary to the chat-completions wire format: requests are translated into its messages, and
//! the chunks of a streamed answer are gathered back into content blocks.
//!
//! A stream that ends without a terminal chunk is a failure, never a success with partial content. A
//! chunk is terminal that says why the model stopped, or that tells the usage. Where only the usage
//! was told, the reason of the stop is `unknown`.

use vstd::prelude::*;

use crate::domain::message::{
    block_texts, blocks_view, is_call, is_output, is_text, its_text, lemma_texts_selected,
    messages_view, some_call, some_text, tells, text_parts, BlockV, ContentBlock, Message, MessageV,
    MessagesResponse, ResponseV, Role, Usage,
};
use crate::error::LlmError;
use crate::json::{json_compact, json_parse, json_text, parse_json, Json, JsonV};
use crate::providers::CallResult;
use crate::select::{
    lemma_selects_each, lemma_selects_from, lemma_selects_nothing, lemma_selects_push,
    lemma_selects_some, selects,
};
use crate::text::{
    chars_of, concat2, concat3, decimal, decimal_usize, join, joined, owned, str_ends_with,
    substring, texts, trim_end, trimmed_end,
};

verus! {

broadcast use vstd::string::group_string_axioms;

/// Default timeouts in seconds: connecting, waiting for the response headers, waiting for the next
/// chunk of a stream.
pub const DEFAULT_CONNECT_TIMEOUT_SECS: u64 = 15;

pub const DEFAULT_REQUEST_TIMEOUT_SECS: u64 = 120;

pub const DEFAULT_STREAM_IDLE_TIMEOUT_SECS: u64 = 60;

/// A tool as the model sees it.
#[derive(Debug, Clone)]
pub struct ToolDefinition {
    pub name: String,
    pub description: String,
    pub input_schema: Json,
}

// ---- requests ----

/// A tool call of an assistant message on the wire.
#[derive(Debug, Clone)]
pub struct OpenAiToolCall {
    pub id: String,
    pub name: String,
    pub arguments: String,
}

/// A message on the wire.
#[derive(Debug, Clone)]
pub enum OpenAiMessage {
    System { content: String },
    User { content: String },
    Assistant { content: Option<String>, tool_calls: Option<Vec<OpenAiToolCall>> },
    Tool { content: String, tool_call_id: String },
}

/// The mathematical value of a tool call on the wire.
#[verifier::ext_equal]
pub struct WireCallV {
    pub id: Seq<char>,
    pub name: Seq<char>,
    pub arguments: Seq<char>,
}

/// The mathematical value of a message on the wire.
#[verifier::ext_equal]
pub enum WireV {
    System { content: Seq<char> },
    User { content: Seq<char> },
    Assistant { content: Option<Seq<char>>, tool_calls: Option<Seq<WireCallV>> },
    Tool { content: Seq<char>, tool_call_id: Seq<char> },
}

impl View for OpenAiToolCall {
    type V = WireCallV;

    open spec fn view(&self) -> WireCallV {
        WireCallV { id: self.id@, name: self.name@, arguments: self.arguments@ }
    }
}

/// The values of a list of calls.
pub open spec fn calls_view(s: Seq<OpenAiToolCall>) -> Seq<WireCallV> {
    s.map_values(|c: OpenAiToolCall| c@)
}

impl View for OpenAiMessage {
    type V = WireV;

    open spec fn view(&self) -> WireV {
        match *self {
            OpenAiMessage::System { content } => WireV::System { content: content@ },
            OpenAiMessage::User { content } => WireV::User { content: content@ },
            OpenAiMessage::Assistant { content, tool_calls } => WireV::Assistant {
                content: content.deep_view(),
                tool_calls: match tool_calls {
                    Some(v) => Some(calls_view(v@)),
                    None => None,
                },
            },
            OpenAiMessage::Tool { content, tool_call_id } => WireV::Tool {
                content: content@,
                tool_call_id: tool_call_id@,
            },
        }
    }
}

/// The values of a list of messages on the wire.
pub open spec fn wires_view(s: Seq<OpenAiMessage>) -> Seq<WireV> {
    s.map_values(|m: OpenAiMessage| m@)
}

/// A message of its own for each tool output.
pub open spec fn tool_messages(blocks: Seq<BlockV>) -> Seq<WireV>
    decreases blocks.len(),
{
    if blocks.len() == 0 {
        Seq::empty()
    } else {
        match blocks.last() {
            BlockV::ToolOutput { call_id, content } => tool_messages(blocks.drop_last()).push(
                WireV::Tool { content, tool_call_id: call_id },
            ),
            _ => tool_messages(blocks.drop_last()),
        }
    }
}

/// The tool calls, their input as JSON text.
pub open spec fn wire_calls(blocks: Seq<BlockV>) -> Seq<WireCallV>
    decreases blocks.len(),
{
    if blocks.len() == 0 {
        Seq::empty()
    } else {
        match blocks.last() {
            BlockV::ToolCall { id, name, input } => wire_calls(blocks.drop_last()).push(
                WireCallV { id, name, arguments: json_compact(input) },
            ),
            _ => wire_calls(blocks.drop_last()),
        }
    }
}

/// A tool call as it stands on the wire.
pub open spec fn its_wire_call() -> spec_fn(BlockV) -> WireCallV {
    |b: BlockV| WireCallV { id: b->id, name: b->name, arguments: json_compact(b->input) }
}

/// A tool output as it stands on the wire.
pub open spec fn its_tool_message() -> spec_fn(BlockV) -> WireV {
    |b: BlockV| WireV::Tool { content: b->ToolOutput_content, tool_call_id: b->call_id }
}

/// Every tool call goes on the wire once, with its own identifier and name and its input as JSON, in
/// the order of the message, and nothing else does.
pub proof fn lemma_every_call_on_the_wire(blocks: Seq<BlockV>)
    ensures
        selects(blocks, wire_calls(blocks), is_call(), its_wire_call()),
    decreases blocks.len(),
{
    if blocks.len() == 0 {
        lemma_selects_nothing::<BlockV, WireCallV>(is_call(), its_wire_call());
        assert(blocks =~= Seq::<BlockV>::empty());
    } else {
        let front = blocks.drop_last();
        lemma_every_call_on_the_wire(front);
        lemma_selects_push(front, wire_calls(front), is_call(), its_wire_call(), blocks.last());
        assert(front.push(blocks.last()) =~= blocks);
    }
}

/// Every tool output goes on the wire once, whole and under the identifier of its call, in the order
/// of the message, and nothing else does.
pub proof fn lemma_every_output_on_the_wire(blocks: Seq<BlockV>)
    ensures
        selects(blocks, tool_messages(blocks), is_output(), its_tool_message()),
    decreases blocks.len(),
{
    if blocks.len() == 0 {
        lemma_selects_nothing::<BlockV, WireV>(is_output(), its_tool_message());
        assert(blocks =~= Seq::<BlockV>::empty());
    } else {
        let front = blocks.drop_last();
        lemma_every_output_on_the_wire(front);
        lemma_selects_push(
            front,
            tool_messages(front),
            is_output(),
            its_tool_message(),
            blocks.last(),
        );
        assert(front.push(blocks.last()) =~= blocks);
    }
}

/// The messages on the wire that a message becomes. A user's tool outputs come first, one message
/// each, then its texts in one; an assistant's texts and calls are one message; the texts of any
/// other role are a user's.
pub open spec fn wire_of(m: MessageV) -> Seq<WireV> {
    let parts = block_texts(m.content);
    let text = join(parts, "\n"@);
    match m.role {
        Role::User => if parts.len() > 0 {
            tool_messages(m.content).push(WireV::User { content: text })
        } else {
            tool_messages(m.content)
        },
        Role::Assistant => seq![
            WireV::Assistant {
                content: if parts.len() > 0 {
                    Some(text)
                } else {
                    None
                },
                tool_calls: if wire_calls(m.content).len() > 0 {
                    Some(wire_calls(m.content))
                } else {
                    None
                },
            },
        ],
        Role::System => if text.len() > 0 {
            seq![WireV::User { content: text }]
        } else {
            Seq::empty()
        },
    }
}

/// The messages on the wire that the messages become.
pub open spec fn wires_of(msgs: Seq<MessageV>) -> Seq<WireV>
    decreases msgs.len(),
{
    if msgs.len() == 0 {
        Seq::empty()
    } else {
        wires_of(msgs.drop_last()) + wire_of(msgs.last())
    }
}

/// A request on the wire: the system prompt first, where there is one.
pub open spec fn request_of(system: Seq<char>, msgs: Seq<MessageV>) -> Seq<WireV> {
    if system.len() > 0 {
        seq![WireV::System { content: system }] + wires_of(msgs)
    } else {
        wires_of(msgs)
    }
}

fn push_user(out: &mut Vec<OpenAiMessage>, content: &[ContentBlock])
    ensures
        wires_view(final(out)@) == wires_view(old(out)@) + wire_of(
            (MessageV { role: Role::User, content: blocks_view(content@) }),
        ),
{
    let ghost all = blocks_view(content@);
    let ghost start = wires_view(out@);
    let mut i: usize = 0;
    assert(start + tool_messages(all.take(0)) =~= start);
    while i < content.len()
        invariant
            i <= content@.len(),
            all == blocks_view(content@),
            wires_view(out@) == start + tool_messages(all.take(i as int)),
        decreases content@.len() - i,
    {
        assert(all.take(i + 1).drop_last() =~= all.take(i as int));
        assert(all.take(i + 1).last() == content@[i as int]@);
        let ghost before = wires_view(out@);
        if let ContentBlock::ToolOutput { call_id, content } = &content[i] {
            let m = OpenAiMessage::Tool {
                content: content.clone(),
                tool_call_id: call_id.clone(),
            };
            out.push(m);
            assert(wires_view(out@) =~= before.push(m@));
            assert(start + tool_messages(all.take(i + 1)) =~= (start + tool_messages(
                all.take(i as int),
            )).push(m@));
        }
        i = i + 1;
    }
    assert(all.take(content@.len() as int) =~= all);
    let parts = text_parts(content);
    assert(texts(parts@).len() == parts@.len());
    if parts.len() > 0 {
        let ghost before = wires_view(out@);
        let m = OpenAiMessage::User { content: joined(&parts, "\n") };
        out.push(m);
        assert(wires_view(out@) =~= before.push(m@));
        assert((start + tool_messages(all)).push(m@) =~= start + tool_messages(all).push(m@));
    }
}

fn assistant_message(content: &[ContentBlock]) -> (r: OpenAiMessage)
    ensures
        r@ is Assistant,
        r@->tool_calls is Some <==> some_call(blocks_view(content@)),
        r@->tool_calls matches Some(cs) ==> selects(
            blocks_view(content@),
            cs,
            is_call(),
            its_wire_call(),
        ),
        seq![r@] == wire_of(
            (MessageV { role: Role::Assistant, content: blocks_view(content@) }),
        ),
{
    let ghost all = blocks_view(content@);
    let mut calls: Vec<OpenAiToolCall> = Vec::new();
    let mut i: usize = 0;
    assert(calls_view(calls@) =~= wire_calls(all.take(0)));
    while i < content.len()
        invariant
            i <= content@.len(),
            all == blocks_view(content@),
            calls_view(calls@) == wire_calls(all.take(i as int)),
        decreases content@.len() - i,
    {
        assert(all.take(i + 1).drop_last() =~= all.take(i as int));
        assert(all.take(i + 1).last() == content@[i as int]@);
        let ghost before = calls_view(calls@);
        if let ContentBlock::ToolCall { id, name, input } = &content[i] {
            let c = OpenAiToolCall {
                id: id.clone(),
                name: name.clone(),
                arguments: json_text(input),
            };
            calls.push(c);
            assert(calls_view(calls@) =~= before.push(c@));
        }
        i = i + 1;
    }
    assert(all.take(content@.len() as int) =~= all);
    let parts = text_parts(content);
    assert(texts(parts@).len() == parts@.len());
    let text = if parts.len() > 0 {
        Some(joined(&parts, "\n"))
    } else {
        None
    };
    let tool_calls = if calls.len() > 0 {
        Some(calls)
    } else {
        None
    };
    proof {
        lemma_assistant_on_the_wire(all);
        let w = wire_of(MessageV { role: Role::Assistant, content: all });
        assert(w[0] is Assistant);
    }
    OpenAiMessage::Assistant { content: text, tool_calls }
}

/// Translate a request into messages on the wire.
pub fn to_openai_messages(system: &str, messages: &[Message]) -> (r: Vec<OpenAiMessage>)
    ensures
        wires_view(r@) == request_of(system@, messages_view(messages@)),
{
    let mut out: Vec<OpenAiMessage> = Vec::new();
    let ghost all = messages_view(messages@);
    if !system.is_empty() {
        out.push(OpenAiMessage::System { content: owned(system) });
    }
    let ghost head = wires_view(out@);
    assert(system@.len() > 0 ==> head =~= seq![WireV::System { content: system@ }]);
    assert(system@.len() == 0 ==> head =~= Seq::<WireV>::empty());
    let mut i: usize = 0;
    assert(head + wires_of(all.take(0)) =~= head);
    while i < messages.len()
        invariant
            i <= messages@.len(),
            all == messages_view(messages@),
            wires_view(out@) == head + wires_of(all.take(i as int)),
        decreases messages@.len() - i,
    {
        assert(all.take(i + 1).drop_last() =~= all.take(i as int));
        assert(all.take(i + 1).last() == messages@[i as int]@);
        let ghost before = wires_view(out@);
        let ghost own = wire_of(messages@[i as int]@);
        match messages[i].role {
            Role::User => {
                push_user(&mut out, &messages[i].content);
            },
            Role::Assistant => {
                let m = assistant_message(&messages[i].content);
                out.push(m);
                assert(wires_view(out@) =~= before + seq![m@]);
            },
            Role::System => {
                let parts = text_parts(&messages[i].content);
                let text = joined(&parts, "\n");
                if !text.as_str().is_empty() {
                    let m = OpenAiMessage::User { content: text };
                    out.push(m);
                    assert(wires_view(out@) =~= before + seq![m@]);
                } else {
                    assert(wires_view(out@) =~= before + Seq::<WireV>::empty());
                }
            },
        }
        assert(wires_view(out@) == before + own);
        assert(head + wires_of(all.take(i + 1)) =~= head + wires_of(all.take(i as int)) + own);
        i = i + 1;
    }
    assert(all.take(messages@.len() as int) =~= all);
    assert(system@.len() == 0 ==> head + wires_of(all) =~= wires_of(all));
    out
}

/// Every tool output of a user message is answered on the wire by a message with its call id, in
/// the order of the outputs, before the user's text.
pub proof fn lemma_tool_messages(blocks: Seq<BlockV>, k: int)
    requires
        0 <= k < blocks.len(),
        blocks[k] is ToolOutput,
    ensures
        exists|j: int|
            0 <= j < tool_messages(blocks).len() && (#[trigger] tool_messages(blocks)[j]) == (
            WireV::Tool {
                content: blocks[k]->ToolOutput_content,
                tool_call_id: blocks[k]->call_id,
            }),
    decreases blocks.len(),
{
    let front = blocks.drop_last();
    if k == blocks.len() - 1 {
        assert(tool_messages(blocks)[tool_messages(front).len() as int] == (WireV::Tool {
            content: blocks[k]->ToolOutput_content,
            tool_call_id: blocks[k]->call_id,
        }));
    } else {
        lemma_tool_messages(front, k);
        assert(front[k] == blocks[k]);
        let j = choose|j: int|
            0 <= j < tool_messages(front).len() && (#[trigger] tool_messages(front)[j]) == (
            WireV::Tool {
                content: blocks[k]->ToolOutput_content,
                tool_call_id: blocks[k]->call_id,
            });
        assert(tool_messages(blocks)[j] == tool_messages(front)[j]);
    }
}

/// An assistant's message is one message on the wire. It carries every tool call once, under its own
/// identifier and name and with its input as JSON, in order; and its texts, one per line.
pub proof fn lemma_assistant_on_the_wire(content: Seq<BlockV>)
    ensures
        ({
            let w = wire_of(MessageV { role: Role::Assistant, content });
            &&& w.len() == 1
            &&& w[0] is Assistant
            &&& w[0]->tool_calls is Some <==> some_call(content)
            &&& w[0]->tool_calls matches Some(cs) ==> selects(
                content,
                cs,
                is_call(),
                its_wire_call(),
            )
            &&& w[0]->Assistant_content is Some <==> some_text(content)
            &&& w[0]->Assistant_content matches Some(t) ==> tells(t, content)
        }),
{
    lemma_every_call_on_the_wire(content);
    lemma_selects_some(content, wire_calls(content), is_call(), its_wire_call());
    lemma_texts_selected(content);
    lemma_selects_some(content, block_texts(content), is_text(), its_text());
    assert(some_call(content) <==> exists|k: int|
        0 <= k < content.len() && is_call()(#[trigger] content[k]));
    assert(some_text(content) <==> exists|k: int|
        0 <= k < content.len() && is_text()(#[trigger] content[k]));
}

/// A user's message goes on the wire as one message for each tool output, in order, then one with
/// all of its texts, one per line, where it has any.
pub proof fn lemma_user_on_the_wire(content: Seq<BlockV>)
    ensures
        ({
            let w = wire_of(MessageV { role: Role::User, content });
            let k = if some_text(content) {
                w.len() - 1
            } else {
                w.len() as int
            };
            &&& 0 <= k
            &&& selects(content, w.take(k), is_output(), its_tool_message())
            &&& some_text(content) ==> w[k] is User && tells(w[k]->User_content, content)
        }),
{
    lemma_every_output_on_the_wire(content);
    lemma_texts_selected(content);
    lemma_selects_some(content, block_texts(content), is_text(), its_text());
    assert(some_text(content) <==> exists|k: int|
        0 <= k < content.len() && is_text()(#[trigger] content[k]));
    let w = wire_of(MessageV { role: Role::User, content });
    let k = if some_text(content) {
        w.len() - 1
    } else {
        w.len() as int
    };
    assert(w.take(k) =~= tool_messages(content));
}

/// A message of any other role goes on the wire as a user's, with all of its texts, one per line, or
/// not at all where they come to nothing.
pub proof fn lemma_system_on_the_wire(content: Seq<BlockV>)
    ensures
        ({
            let w = wire_of(MessageV { role: Role::System, content });
            &&& w.len() == 1 ==> w[0] is User && tells(w[0]->User_content, content)
                && w[0]->User_content.len() > 0
            &&& w.len() != 1 ==> w.len() == 0 && tells(Seq::empty(), content)
        }),
{
    lemma_texts_selected(content);
    assert(join(block_texts(content), "\n"@).len() == 0 ==> join(block_texts(content), "\n"@)
        =~= Seq::<char>::empty());
}

/// The messages on the wire of message `i` begin at `at[i]` and end where those of the next begin.
pub open spec fn placed(at: Seq<int>, msgs: Seq<MessageV>, out: Seq<WireV>) -> bool {
    &&& at.len() == msgs.len() + 1
    &&& at.last() == out.len()
    &&& forall|i: int| 0 <= i < at.len() ==> 0 <= #[trigger] at[i] <= out.len()
    &&& forall|i: int, j: int| 0 <= i < j < at.len() ==> #[trigger] at[i] <= #[trigger] at[j]
    &&& forall|i: int|
        0 <= i < msgs.len() ==> out.subrange(at[i], at[i + 1]) == wire_of(#[trigger] msgs[i])
}

proof fn lemma_placed(head: Seq<WireV>, msgs: Seq<MessageV>)
    ensures
        exists|at: Seq<int>|
            placed(at, msgs, head + wires_of(msgs)) && #[trigger] at[0] == head.len(),
    decreases msgs.len(),
{
    let out = head + wires_of(msgs);
    if msgs.len() == 0 {
        let at = seq![head.len() as int];
        assert(placed(at, msgs, out) && at[0] == head.len());
    } else {
        let front = msgs.drop_last();
        lemma_placed(head, front);
        let before = head + wires_of(front);
        let at = choose|at: Seq<int>| placed(at, front, before) && #[trigger] at[0] == head.len();
        let to = at.push(out.len() as int);
        assert(out =~= before + wire_of(msgs.last()));
        assert forall|i: int| 0 <= i < msgs.len() implies out.subrange(to[i], to[i + 1])
            == wire_of(#[trigger] msgs[i]) by {
            if i < front.len() {
                assert(front[i] == msgs[i]);
                assert(at[i + 1] <= before.len());
                assert(out.subrange(to[i], to[i + 1]) =~= before.subrange(at[i], at[i + 1]));
            } else {
                assert(at[i] == at.last());
                assert(out.subrange(to[i], to[i + 1]) =~= wire_of(msgs[i]));
            }
        }
        assert forall|i: int| 0 <= i < to.len() implies 0 <= #[trigger] to[i] <= out.len() by {
            if i < at.len() {
                assert(to[i] == at[i]);
            }
        }
        assert(placed(to, msgs, out) && to[0] == head.len());
    }
}

/// A request is the system prompt, where there is one, and then every message of the conversation,
/// one behind the other: none is left out and nothing stands between them.
pub proof fn lemma_request_is_complete(system: Seq<char>, msgs: Seq<MessageV>)
    ensures
        ({
            let out = request_of(system, msgs);
            exists|at: Seq<int>| #[trigger]
                placed(at, msgs, out) && (if system.len() > 0 {
                    at[0] == 1 && out[0] == (WireV::System { content: system })
                } else {
                    at[0] == 0
                })
        }),
{
    let head = if system.len() > 0 {
        seq![WireV::System { content: system }]
    } else {
        Seq::empty()
    };
    lemma_placed(head, msgs);
    assert(request_of(system, msgs) =~= head + wires_of(msgs));
    let at = choose|at: Seq<int>|
        placed(at, msgs, head + wires_of(msgs)) && #[trigger] at[0] == head.len();
    assert(placed(at, msgs, request_of(system, msgs)));
}

/// Where the outputs of a user's message answer calls of the response before it, so do they on the
/// wire: every tool message names a call that the assistant's message carries.
pub proof fn lemma_answers_name_calls(response: Seq<BlockV>, answer: Seq<BlockV>, j: int)
    requires
        forall|k: int|
            0 <= k < answer.len() && (#[trigger] answer[k]) is ToolOutput ==> exists|c: int|
                0 <= c < response.len() && (#[trigger] response[c]) is ToolCall && response[c]->id
                    == answer[k]->call_id,
        0 <= j < wire_of(MessageV { role: Role::User, content: answer }).len(),
        wire_of(MessageV { role: Role::User, content: answer })[j] is Tool,
    ensures
        ({
            let asked = wire_of(MessageV { role: Role::Assistant, content: response })[0];
            let given = wire_of(MessageV { role: Role::User, content: answer })[j];
            asked->tool_calls is Some && exists|c: int|
                0 <= c < asked->tool_calls->0.len() && (#[trigger] asked->tool_calls->0[c]).id
                    == given->tool_call_id
        }),
{
    let given = wire_of(MessageV { role: Role::User, content: answer });
    lemma_every_output_on_the_wire(answer);
    assert(given[j] == tool_messages(answer)[j]);
    let k = lemma_selects_from(answer, tool_messages(answer), is_output(), its_tool_message(), j);
    let c = choose|c: int|
        0 <= c < response.len() && (#[trigger] response[c]) is ToolCall && response[c]->id
            == answer[k]->call_id;
    lemma_every_call_on_the_wire(response);
    lemma_selects_each(response, wire_calls(response), is_call(), its_wire_call());
    assert(is_call()(response[c]));
    assert(wire_calls(response).contains(its_wire_call()(response[c])));
    let at = choose|at: int|
        0 <= at < wire_calls(response).len() && wire_calls(response)[at] == its_wire_call()(
            response[c],
        );
    let asked = wire_of(MessageV { role: Role::Assistant, content: response })[0];
    assert(asked->tool_calls->0 == wire_calls(response));
    assert(asked->tool_calls->0[at].id == response[c]->id);
}

/// The address without slashes at its end.
pub open spec fn without_slashes(s: Seq<char>) -> Seq<char>
    decreases s.len(),
{
    if s.len() > 0 && s.last() == '/' {
        without_slashes(s.drop_last())
    } else {
        s
    }
}

/// The base address of the API without slashes at its end.
pub fn api_base(base_url: &str) -> (r: String)
    ensures
        r@ == without_slashes(base_url@),
{
    let cs = chars_of(base_url);
    let mut n: usize = cs.len();
    assert(cs@.take(n as int) =~= cs@);
    while n > 0 && cs[n - 1] == '/'
        invariant
            n <= cs@.len(),
            cs@ == base_url@,
            without_slashes(base_url@) == without_slashes(cs@.take(n as int)),
        decreases n,
    {
        assert(cs@.take(n as int).drop_last() =~= cs@.take(n - 1));
        n = n - 1;
    }
    substring(&cs, 0, n)
}

// ---- streamed answers ----

/// Why the model stopped.
#[derive(Debug, Clone, Copy, PartialEq, Eq, Structural)]
pub enum FinishReason {
    Stop,
    Length,
    ToolCalls,
    ContentFilter,
    FunctionCall,
}

/// The neutral word for why the model stopped.
pub open spec fn finish_word(f: FinishReason) -> Seq<char> {
    match f {
        FinishReason::ToolCalls => "tool_call"@,
        FinishReason::FunctionCall => "tool_call"@,
        FinishReason::Stop => "stop"@,
        FinishReason::Length => "max_tokens"@,
        FinishReason::ContentFilter => "content_filter"@,
    }
}

/// A piece of a tool call.
#[derive(Debug, Clone)]
pub struct CallDelta {
    pub index: u32,
    pub id: Option<String>,
    pub name: Option<String>,
    pub arguments: Option<String>,
}

/// A piece of an answer.
#[derive(Debug, Clone)]
pub struct ChoiceDelta {
    pub content: Option<String>,
    pub tool_calls: Vec<CallDelta>,
    pub finish_reason: Option<FinishReason>,
}

/// One chunk of a stream. `usage` is the count of prompt and completion tokens.
#[derive(Debug, Clone)]
pub struct StreamChunk {
    pub usage: Option<(u32, u32)>,
    pub choices: Vec<ChoiceDelta>,
}

/// The mathematical value of a piece of a tool call.
#[verifier::ext_equal]
pub struct CallDeltaV {
    pub index: u32,
    pub id: Option<Seq<char>>,
    pub name: Option<Seq<char>>,
    pub arguments: Option<Seq<char>>,
}

impl View for CallDelta {
    type V = CallDeltaV;

    open spec fn view(&self) -> CallDeltaV {
        CallDeltaV {
            index: self.index,
            id: self.id.deep_view(),
            name: self.name.deep_view(),
            arguments: self.arguments.deep_view(),
        }
    }
}

/// The mathematical value of a piece of an answer.
#[verifier::ext_equal]
pub struct ChoiceV {
    pub content: Option<Seq<char>>,
    pub tool_calls: Seq<CallDeltaV>,
    pub finish: Option<FinishReason>,
}

impl View for ChoiceDelta {
    type V = ChoiceV;

    open spec fn view(&self) -> ChoiceV {
        ChoiceV {
            content: self.content.deep_view(),
            tool_calls: self.tool_calls@.map_values(|c: CallDelta| c@),
            finish: self.finish_reason,
        }
    }
}

/// The mathematical value of a chunk.
#[verifier::ext_equal]
pub struct ChunkV {
    pub usage: Option<(u32, u32)>,
    pub choices: Seq<ChoiceV>,
}

impl View for StreamChunk {
    type V = ChunkV;

    open spec fn view(&self) -> ChunkV {
        ChunkV {
            usage: self.usage,
            choices: self.choices@.map_values(|c: ChoiceDelta| c@),
        }
    }
}

/// A tool call as gathered so far.
#[derive(Debug)]
pub struct GatheredCall {
    index: u32,
    id: String,
    name: String,
    arguments: String,
}

/// The mathematical value of a gathered call.
#[verifier::ext_equal]
pub struct GatheredV {
    pub index: u32,
    pub id: Seq<char>,
    pub name: Seq<char>,
    pub arguments: Seq<char>,
}

impl View for GatheredCall {
    type V = GatheredV;

    closed spec fn view(&self) -> GatheredV {
        GatheredV {
            index: self.index,
            id: self.id@,
            name: self.name@,
            arguments: self.arguments@,
        }
    }
}

/// An answer as gathered so far.
#[derive(Debug)]
pub struct StreamAccumulator {
    text: String,
    calls: Vec<GatheredCall>,
    finish: Option<FinishReason>,
    usage: Option<Usage>,
}

/// The mathematical value of an answer as gathered so far.
#[verifier::ext_equal]
pub struct AnswerV {
    pub text: Seq<char>,
    pub calls: Seq<GatheredV>,
    pub finish: Option<FinishReason>,
    pub usage: Option<Usage>,
}

impl View for StreamAccumulator {
    type V = AnswerV;

    closed spec fn view(&self) -> AnswerV {
        AnswerV {
            text: self.text@,
            calls: self.calls@.map_values(|c: GatheredCall| c@),
            finish: self.finish,
            usage: self.usage,
        }
    }
}

/// The new text, where there is one and it is not empty, else the old.
pub open spec fn updated(before: Seq<char>, new: Option<Seq<char>>) -> Seq<char> {
    match new {
        Some(t) => if t.len() > 0 {
            t
        } else {
            before
        },
        None => before,
    }
}

/// A gathered call with one more piece: id and name are replaced, arguments grow.
pub open spec fn merged(g: GatheredV, d: CallDeltaV) -> GatheredV {
    GatheredV {
        index: g.index,
        id: updated(g.id, d.id),
        name: updated(g.name, d.name),
        arguments: match d.arguments {
            Some(a) => g.arguments + a,
            None => g.arguments,
        },
    }
}

/// A call of which nothing is known.
pub open spec fn fresh_call(index: u32) -> GatheredV {
    GatheredV { index, id: Seq::empty(), name: Seq::empty(), arguments: Seq::empty() }
}

/// The calls, ordered by index, with one more piece.
pub open spec fn with_piece(calls: Seq<GatheredV>, d: CallDeltaV) -> Seq<GatheredV>
    decreases calls.len(),
{
    if calls.len() == 0 || calls[0].index > d.index {
        seq![merged(fresh_call(d.index), d)] + calls
    } else if calls[0].index == d.index {
        seq![merged(calls[0], d)] + calls.skip(1)
    } else {
        seq![calls[0]] + with_piece(calls.skip(1), d)
    }
}

/// The calls with more pieces.
pub open spec fn with_pieces(calls: Seq<GatheredV>, ds: Seq<CallDeltaV>) -> Seq<GatheredV>
    decreases ds.len(),
{
    if ds.len() == 0 {
        calls
    } else {
        with_piece(with_pieces(calls, ds.drop_last()), ds.last())
    }
}

/// The answer with one more choice.
pub open spec fn with_choice(a: AnswerV, c: ChoiceV) -> AnswerV {
    AnswerV {
        text: match c.content {
            Some(t) => a.text + t,
            None => a.text,
        },
        calls: with_pieces(a.calls, c.tool_calls),
        finish: match c.finish {
            Some(f) => Some(f),
            None => a.finish,
        },
        usage: a.usage,
    }
}

/// The answer with more choices.
pub open spec fn with_choices(a: AnswerV, cs: Seq<ChoiceV>) -> AnswerV
    decreases cs.len(),
{
    if cs.len() == 0 {
        a
    } else {
        with_choice(with_choices(a, cs.drop_last()), cs.last())
    }
}

/// The answer with the usage that a chunk tells, where it tells any.
pub open spec fn with_usage(a: AnswerV, c: ChunkV) -> AnswerV {
    AnswerV {
        usage: match c.usage {
            Some((i, o)) => Some(Usage { input_tokens: i as u64, output_tokens: o as u64 }),
            None => a.usage,
        },
        ..a
    }
}

/// The answer with one more chunk.
pub open spec fn with_chunk(a: AnswerV, c: ChunkV) -> AnswerV {
    with_choices(with_usage(a, c), c.choices)
}

/// The answer before any chunk.
pub open spec fn no_answer() -> AnswerV {
    AnswerV { text: Seq::empty(), calls: Seq::empty(), finish: None, usage: None }
}

/// The indices of the calls grow.
pub open spec fn ascending(calls: Seq<GatheredV>) -> bool {
    forall|i: int, j: int|
        0 <= i < j < calls.len() ==> (#[trigger] calls[i]).index < (#[trigger] calls[j]).index
}

/// Every index is above `low`.
pub open spec fn all_above(calls: Seq<GatheredV>, low: u32) -> bool {
    forall|i: int| 0 <= i < calls.len() ==> low < (#[trigger] calls[i]).index
}

proof fn lemma_piece_above(calls: Seq<GatheredV>, d: CallDeltaV, low: u32)
    requires
        low < d.index,
        all_above(calls, low),
    ensures
        all_above(with_piece(calls, d), low),
    decreases calls.len(),
{
    let out = with_piece(calls, d);
    if calls.len() == 0 || calls[0].index > d.index {
        assert forall|i: int| 0 <= i < out.len() implies low < (#[trigger] out[i]).index by {
            if i > 0 {
                assert(out[i] == calls[i - 1]);
            }
        }
    } else if calls[0].index == d.index {
        assert forall|i: int| 0 <= i < out.len() implies low < (#[trigger] out[i]).index by {
            if i > 0 {
                assert(out[i] == calls[i]);
            }
        }
    } else {
        let rest = calls.skip(1);
        assert forall|i: int| 0 <= i < rest.len() implies low < (#[trigger] rest[i]).index by {
            assert(rest[i] == calls[i + 1]);
        }
        lemma_piece_above(rest, d, low);
        let tail = with_piece(rest, d);
        assert forall|i: int| 0 <= i < out.len() implies low < (#[trigger] out[i]).index by {
            if i > 0 {
                assert(out[i] == tail[i - 1]);
            }
        }
    }
}

proof fn lemma_with_piece(calls: Seq<GatheredV>, d: CallDeltaV)
    requires
        ascending(calls),
    ensures
        ascending(with_piece(calls, d)),
    decreases calls.len(),
{
    let out = with_piece(calls, d);
    if calls.len() == 0 || calls[0].index > d.index {
        assert forall|i: int, j: int| 0 <= i < j < out.len() implies (#[trigger] out[i]).index < (
        #[trigger] out[j]).index by {
            assert(out[j] == calls[j - 1]);
            if i > 0 {
                assert(out[i] == calls[i - 1]);
            } else if j > 1 {
                assert(calls[0].index < calls[j - 1].index);
            }
        }
    } else if calls[0].index == d.index {
        assert forall|i: int, j: int| 0 <= i < j < out.len() implies (#[trigger] out[i]).index < (
        #[trigger] out[j]).index by {
            assert(out[j] == calls[j]);
            if i > 0 {
                assert(out[i] == calls[i]);
            } else {
                assert(calls[0].index < calls[j].index);
            }
        }
    } else {
        let rest = calls.skip(1);
        assert forall|i: int, j: int| 0 <= i < j < rest.len() implies (#[trigger] rest[i]).index < (
        #[trigger] rest[j]).index by {
            assert(rest[i] == calls[i + 1] && rest[j] == calls[j + 1]);
        }
        lemma_with_piece(rest, d);
        let low = calls[0].index;
        assert forall|i: int| 0 <= i < rest.len() implies low < (#[trigger] rest[i]).index by {
            assert(rest[i] == calls[i + 1]);
            assert(calls[0].index < calls[i + 1].index);
        }
        lemma_piece_above(rest, d, low);
        let tail = with_piece(rest, d);
        assert forall|i: int, j: int| 0 <= i < j < out.len() implies (#[trigger] out[i]).index < (
        #[trigger] out[j]).index by {
            assert(out[j] == tail[j - 1]);
            if i > 0 {
                assert(out[i] == tail[i - 1]);
            }
        }
    }
}

/// Gathering keeps the calls ordered by index, one entry for each: parallel calls do not mix.
pub proof fn lemma_pieces_ascending(calls: Seq<GatheredV>, ds: Seq<CallDeltaV>)
    requires
        ascending(calls),
    ensures
        ascending(with_pieces(calls, ds)),
    decreases ds.len(),
{
    if ds.len() > 0 {
        lemma_pieces_ascending(calls, ds.drop_last());
        lemma_with_piece(with_pieces(calls, ds.drop_last()), ds.last());
    }
}

fn merge_piece(g: &mut GatheredCall, d: &CallDelta)
    ensures
        final(g)@ == merged(old(g)@, d@),
{
    if let Some(id) = &d.id {
        if !id.as_str().is_empty() {
            g.id = id.clone();
        }
    }
    if let Some(name) = &d.name {
        if !name.as_str().is_empty() {
            g.name = name.clone();
        }
    }
    if let Some(a) = &d.arguments {
        g.arguments.append(a.as_str());
    }
}

fn add_piece(calls: &mut Vec<GatheredCall>, d: &CallDelta)
    ensures
        final(calls)@.map_values(|c: GatheredCall| c@) == with_piece(
            old(calls)@.map_values(|c: GatheredCall| c@),
            d@,
        ),
{
    let ghost f = |c: GatheredCall| c@;
    let ghost all = calls@.map_values(f);
    let ghost want = with_piece(all, d@);
    let mut i: usize = 0;
    assert(all.skip(0) =~= all);
    assert(all.take(0) + want =~= want);
    while i < calls.len() && calls[i].index < d.index
        invariant
            i <= calls@.len(),
            f == (|c: GatheredCall| c@),
            all == calls@.map_values(f),
            want == all.take(i as int) + with_piece(all.skip(i as int), d@),
        decreases calls@.len() - i,
    {
        proof {
            let rest = all.skip(i as int);
            assert(rest[0] == calls@[i as int]@);
            assert(rest.skip(1) =~= all.skip(i + 1));
            assert(all.take(i as int) + (seq![rest[0]] + with_piece(rest.skip(1), d@)) =~= all.take(
                i + 1,
            ) + with_piece(all.skip(i + 1), d@));
        }
        i = i + 1;
    }
    let ghost rest = all.skip(i as int);
    if i < calls.len() {
        assert(rest[0] == calls@[i as int]@);
    }
    if i < calls.len() && calls[i].index == d.index {
        let mut g = calls.remove(i);
        merge_piece(&mut g, d);
        calls.insert(i, g);
        assert(rest.skip(1) =~= all.skip(i + 1));
        assert(calls@.map_values(f) =~= all.take(i as int) + (seq![g@] + all.skip(i + 1)));
    } else {
        let mut g = GatheredCall {
            index: d.index,
            id: String::new(),
            name: String::new(),
            arguments: String::new(),
        };
        assert(g@ =~= fresh_call(d.index));
        merge_piece(&mut g, d);
        calls.insert(i, g);
        assert(calls@.map_values(f) =~= all.take(i as int) + (seq![g@] + rest));
    }
}

/// The block of a gathered call: its arguments as JSON, or null where they cannot be read.
pub open spec fn call_block(g: GatheredV) -> BlockV {
    BlockV::ToolCall {
        id: g.id,
        name: g.name,
        input: if g.arguments.len() == 0 {
            JsonV::Null
        } else {
            match json_parse(g.arguments) {
                Some(v) => v,
                None => JsonV::Null,
            }
        },
    }
}

/// The blocks of a gathered answer: the text, where there is any, then the calls.
pub open spec fn answer_blocks(a: AnswerV) -> Seq<BlockV> {
    let calls = a.calls.map_values(|g: GatheredV| call_block(g));
    if a.text.len() > 0 {
        seq![BlockV::Text { text: a.text }] + calls
    } else {
        calls
    }
}

/// What the failure of a truncated stream says.
pub open spec fn truncated_text(blocks: nat) -> Seq<char> {
    "stream ended without a terminal chunk (finish_reason=unknown, blocks="@ + decimal(blocks)
        + ") — possible truncation"@
}

/// Classify an error: a prompt that was too long, or any other failure.
pub fn classify_error(err: LlmError) -> (r: CallResult)
    ensures
        r == classified(err),
{
    if err.is_prompt_too_long() {
        CallResult::PromptTooLong(err)
    } else {
        CallResult::Failure(err)
    }
}

impl StreamAccumulator {
    pub fn new() -> (r: Self)
        ensures
            r@ == no_answer(),
    {
        let r = StreamAccumulator {
            text: String::new(),
            calls: Vec::new(),
            finish: None,
            usage: None,
        };
        assert(r@.calls =~= Seq::<GatheredV>::empty());
        r
    }

    fn add_choice(&mut self, c: &ChoiceDelta)
        ensures
            final(self)@ == with_choice(old(self)@, c@),
    {
        let ghost start = self@;
        if let Some(t) = &c.content {
            self.text.append(t.as_str());
        }
        let ghost ds = c@.tool_calls;
        let ghost before = self@;
        let mut i: usize = 0;
        assert(ds.take(0) =~= Seq::<CallDeltaV>::empty());
        while i < c.tool_calls.len()
            invariant
                i <= c.tool_calls@.len(),
                ds == c.tool_calls@.map_values(|c: CallDelta| c@),
                self@ == (AnswerV {
                    calls: with_pieces(before.calls, ds.take(i as int)),
                    ..before
                }),
            decreases c.tool_calls@.len() - i,
        {
            assert(ds.take(i + 1).drop_last() =~= ds.take(i as int));
            assert(ds.take(i + 1).last() == c.tool_calls@[i as int]@);
            add_piece(&mut self.calls, &c.tool_calls[i]);
            i = i + 1;
        }
        assert(ds.take(c.tool_calls@.len() as int) =~= ds);
        if let Some(f) = c.finish_reason {
            self.finish = Some(f);
        }
    }

    /// Take in one chunk.
    pub fn add_chunk(&mut self, chunk: &StreamChunk)
        ensures
            final(self)@ == with_chunk(old(self)@, chunk@),
    {
        if let Some((input, output)) = chunk.usage {
            self.usage = Some(
                Usage { input_tokens: input as u64, output_tokens: output as u64 },
            );
        }
        let ghost before = self@;
        let ghost cs = chunk@.choices;
        let mut i: usize = 0;
        assert(cs.take(0) =~= Seq::<ChoiceV>::empty());
        while i < chunk.choices.len()
            invariant
                i <= chunk.choices@.len(),
                cs == chunk.choices@.map_values(|c: ChoiceDelta| c@),
                self@ == with_choices(before, cs.take(i as int)),
            decreases chunk.choices@.len() - i,
        {
            assert(cs.take(i + 1).drop_last() =~= cs.take(i as int));
            assert(cs.take(i + 1).last() == chunk.choices@[i as int]@);
            self.add_choice(&chunk.choices[i]);
            i = i + 1;
        }
        assert(cs.take(chunk.choices@.len() as int) =~= cs);
    }

    /// The stream is over: the response, or a failure where no chunk was terminal.
    pub fn finish(self) -> (r: CallResult)
        ensures
            finished(self@, r),
            terminal(self@) <==> r is Success,
            r matches CallResult::Success(m) ==> {
                &&& self@.text.len() > 0 ==> m@.content.len() == 1 + self@.calls.len()
                    && m@.content[0] == (BlockV::Text { text: self@.text })
                &&& self@.text.len() == 0 ==> m@.content.len() == self@.calls.len()
            },
    {
        let ghost a = self@;
        let mut content: Vec<ContentBlock> = Vec::new();
        if !self.text.as_str().is_empty() {
            content.push(ContentBlock::Text { text: self.text });
        }
        let ghost head = blocks_view(content@);
        assert(a.text.len() > 0 ==> head =~= seq![BlockV::Text { text: a.text }]);
        assert(a.text.len() == 0 ==> head =~= Seq::<BlockV>::empty());
        let ghost wanted = a.calls.map_values(|g: GatheredV| call_block(g));
        let mut i: usize = 0;
        assert(head + wanted.take(0) =~= head);
        while i < self.calls.len()
            invariant
                i <= self.calls@.len(),
                a.calls == self.calls@.map_values(|c: GatheredCall| c@),
                wanted == a.calls.map_values(|g: GatheredV| call_block(g)),
                blocks_view(content@) == head + wanted.take(i as int),
            decreases self.calls@.len() - i,
        {
            let ghost before = blocks_view(content@);
            let g = &self.calls[i];
            assert(a.calls[i as int] == g@);
            let input = if g.arguments.as_str().is_empty() {
                Json::Null
            } else {
                match parse_json(g.arguments.as_str()) {
                    Some(v) => v,
                    None => Json::Null,
                }
            };
            let block = ContentBlock::ToolCall { id: g.id.clone(), name: g.name.clone(), input };
            assert(block@ == wanted[i as int]);
            content.push(block);
            assert(blocks_view(content@) =~= before.push(block@));
            assert(head + wanted.take(i + 1) =~= (head + wanted.take(i as int)).push(
                wanted[i as int],
            ));
            i = i + 1;
        }
        assert(wanted.take(self.calls@.len() as int) =~= wanted);
        assert(blocks_view(content@) =~= answer_blocks(a));
        match self.finish {
            Some(f) => {
                let word = match f {
                    FinishReason::ToolCalls => "tool_call",
                    FinishReason::FunctionCall => "tool_call",
                    FinishReason::Stop => "stop",
                    FinishReason::Length => "max_tokens",
                    FinishReason::ContentFilter => "content_filter",
                };
                CallResult::Success(
                    MessagesResponse { content, finish_reason: owned(word), usage: self.usage },
                )
            },
            None => if self.usage.is_some() {
                CallResult::Success(
                    MessagesResponse {
                        content,
                        finish_reason: owned("unknown"),
                        usage: self.usage,
                    },
                )
            } else {
                classify_error(
                    LlmError::Stream(
                        concat3(
                            "stream ended without a terminal chunk (finish_reason=unknown, blocks=",
                            decimal_usize(content.len()).as_str(),
                            ") — possible truncation",
                        ),
                    ),
                )
            },
        }
    }
}

/// What happens while a response is streamed.
#[derive(Debug)]
pub enum StreamEvent {
    /// The user interrupted the call.
    Interrupted,
    /// The stream could not be opened.
    OpenFailed(LlmError),
    /// The stream was not opened within the limit.
    OpenTimedOut { limit: String },
    /// A chunk arrived.
    Chunk(StreamChunk),
    /// The stream broke.
    ChunkFailed(LlmError),
    /// No chunk arrived within the limit.
    IdleTimedOut { limit: String },
    /// The stream is over.
    Ended,
}

/// Where a call of the model stands.
#[derive(Debug)]
pub enum StreamStep {
    /// The next event is awaited.
    Waiting(StreamAccumulator),
    /// The call is over.
    Done(CallResult),
}

/// An error ends the call.
pub open spec fn classified(e: LlmError) -> CallResult {
    if e is PromptTooLong {
        CallResult::PromptTooLong(e)
    } else {
        CallResult::Failure(e)
    }
}

/// A terminal chunk has come: one that said why the model stopped, or one that told the usage.
pub open spec fn terminal(a: AnswerV) -> bool {
    a.finish is Some || a.usage is Some
}

/// Why the model stopped, `unknown` where it was not said.
pub open spec fn stop_reason(a: AnswerV) -> Seq<char> {
    match a.finish {
        Some(f) => finish_word(f),
        None => "unknown"@,
    }
}

/// The call ends with the response, or with a failure where no chunk was terminal.
pub open spec fn finished(a: AnswerV, r: CallResult) -> bool {
    if terminal(a) {
        r matches CallResult::Success(m) && m@ == (ResponseV {
            content: answer_blocks(a),
            finish_reason: stop_reason(a),
            usage: a.usage,
        })
    } else {
        r matches CallResult::Failure(LlmError::Stream(m)) && m@ == truncated_text(
            answer_blocks(a).len(),
        )
    }
}

/// Where the call stands after the event.
pub open spec fn stepped(a: AnswerV, e: StreamEvent, r: StreamStep) -> bool {
    match e {
        StreamEvent::Interrupted => r == StreamStep::Done(CallResult::Cancelled),
        StreamEvent::OpenFailed(error) => r == StreamStep::Done(classified(error)),
        StreamEvent::OpenTimedOut { limit } => r matches StreamStep::Done(
            CallResult::Failure(LlmError::Stream(m)),
        ) && m@ == "request timed out after "@ + limit@ + " (connect+headers)"@,
        StreamEvent::Chunk(c) => r matches StreamStep::Waiting(after) && after@ == with_chunk(
            a,
            c@,
        ),
        StreamEvent::ChunkFailed(error) => r == StreamStep::Done(classified(error)),
        StreamEvent::IdleTimedOut { limit } => r matches StreamStep::Done(
            CallResult::Failure(LlmError::Stream(m)),
        ) && m@ == "stream idle timeout: no chunk within "@ + limit@,
        StreamEvent::Ended => r matches StreamStep::Done(result) && finished(a, result),
    }
}

impl StreamAccumulator {
    /// Where the call stands after the event.
    pub fn step(self, event: StreamEvent) -> (r: StreamStep)
        ensures
            stepped(self@, event, r),
    {
        match event {
            StreamEvent::Interrupted => StreamStep::Done(CallResult::Cancelled),
            StreamEvent::OpenFailed(error) => StreamStep::Done(classify_error(error)),
            StreamEvent::OpenTimedOut { limit } => StreamStep::Done(
                classify_error(
                    LlmError::Stream(
                        concat3("request timed out after ", limit.as_str(), " (connect+headers)"),
                    ),
                ),
            ),
            StreamEvent::Chunk(chunk) => {
                let mut answer = self;
                answer.add_chunk(&chunk);
                StreamStep::Waiting(answer)
            },
            StreamEvent::ChunkFailed(error) => StreamStep::Done(classify_error(error)),
            StreamEvent::IdleTimedOut { limit } => StreamStep::Done(
                classify_error(
                    LlmError::Stream(
                        concat2("stream idle timeout: no chunk within ", limit.as_str()),
                    ),
                ),
            ),
            StreamEvent::Ended => StreamStep::Done(self.finish()),
        }
    }
}

/// Only a stream that came to its end after a terminal chunk counts as a success.
pub proof fn lemma_success_is_complete(a: AnswerV, e: StreamEvent, m: MessagesResponse)
    requires
        stepped(a, e, StreamStep::Done(CallResult::Success(m))),
    ensures
        e is Ended,
        terminal(a),
        m@.finish_reason == stop_reason(a),
{
}

/// A stream that came to its end is a success if and only if a terminal chunk came; otherwise it is a
/// failure, whatever text or calls had arrived.
pub proof fn lemma_end_is_judged(a: AnswerV, r: CallResult)
    requires
        stepped(a, StreamEvent::Ended, StreamStep::Done(r)),
    ensures
        r is Success <==> terminal(a),
        !terminal(a) ==> r matches CallResult::Failure(LlmError::Stream(_)),
{
}

/// Once a terminal chunk has come, later chunks cannot take it back: the stream is complete.
pub proof fn lemma_terminal_stays(a: AnswerV, chunk: ChunkV)
    requires
        terminal(a),
    ensures
        terminal(with_chunk(a, chunk)),
{
    lemma_choices_keep_terminal(with_usage(a, chunk), chunk.choices);
}

proof fn lemma_choices_keep_terminal(a: AnswerV, cs: Seq<ChoiceV>)
    ensures
        a.finish is Some ==> with_choices(a, cs).finish is Some,
        with_choices(a, cs).usage == a.usage,
    decreases cs.len(),
{
    if cs.len() > 0 {
        lemma_choices_keep_terminal(a, cs.drop_last());
    }
}

// ---- what a stream tells ----

/// The choices of the chunks, in order.
pub open spec fn choices_of(chunks: Seq<ChunkV>) -> Seq<ChoiceV>
    decreases chunks.len(),
{
    if chunks.len() == 0 {
        Seq::empty()
    } else {
        choices_of(chunks.drop_last()) + chunks.last().choices
    }
}

/// All the text of the choices, piece behind piece.
pub open spec fn said(cs: Seq<ChoiceV>) -> Seq<char>
    decreases cs.len(),
{
    if cs.len() == 0 {
        Seq::empty()
    } else {
        match cs.last().content {
            Some(t) => said(cs.drop_last()) + t,
            None => said(cs.drop_last()),
        }
    }
}

/// All the pieces of tool calls of the choices, in order.
pub open spec fn pieces_of(cs: Seq<ChoiceV>) -> Seq<CallDeltaV>
    decreases cs.len(),
{
    if cs.len() == 0 {
        Seq::empty()
    } else {
        pieces_of(cs.drop_last()) + cs.last().tool_calls
    }
}

/// The call at an index as its pieces tell it: the identifier and the name that came last and were not
/// empty, and all the arguments, piece behind piece.
pub open spec fn told(ds: Seq<CallDeltaV>, index: u32) -> GatheredV
    decreases ds.len(),
{
    if ds.len() == 0 {
        GatheredV { index, id: Seq::empty(), name: Seq::empty(), arguments: Seq::empty() }
    } else {
        let d = ds.last();
        let before = told(ds.drop_last(), index);
        if d.index != index {
            before
        } else {
            GatheredV {
                index,
                id: match d.id {
                    Some(t) if t.len() > 0 => t,
                    _ => before.id,
                },
                name: match d.name {
                    Some(t) if t.len() > 0 => t,
                    _ => before.name,
                },
                arguments: match d.arguments {
                    Some(t) => before.arguments + t,
                    None => before.arguments,
                },
            }
        }
    }
}

/// There is one call for each index that a piece names, and no other, ordered by index, each as its own
/// pieces tell it.
pub open spec fn gathers(calls: Seq<GatheredV>, ds: Seq<CallDeltaV>) -> bool {
    &&& ascending(calls)
    &&& forall|j: int|
        0 <= j < calls.len() ==> #[trigger] calls[j] == told(ds, calls[j].index) && names(
            ds,
            calls[j].index,
        )
    &&& forall|i: int| 0 <= i < ds.len() ==> holds_index(calls, (#[trigger] ds[i]).index)
}

/// A piece names the index.
pub open spec fn names(ds: Seq<CallDeltaV>, index: u32) -> bool {
    exists|i: int| 0 <= i < ds.len() && (#[trigger] ds[i]).index == index
}

/// A call has the index.
pub open spec fn holds_index(calls: Seq<GatheredV>, index: u32) -> bool {
    exists|j: int| 0 <= j < calls.len() && (#[trigger] calls[j]).index == index
}

/// One piece changes the call at its own index, or begins it, and leaves every other as it is.
pub proof fn lemma_piece_taken(calls: Seq<GatheredV>, d: CallDeltaV)
    requires
        ascending(calls),
    ensures
        ({
            let out = with_piece(calls, d);
            &&& holds_index(out, d.index)
            &&& forall|j: int|
                0 <= j < out.len() && (#[trigger] out[j]).index != d.index ==> calls.contains(out[j])
            &&& forall|m: int|
                0 <= m < calls.len() && (#[trigger] calls[m]).index != d.index ==> out.contains(
                    calls[m],
                )
            &&& forall|j: int, m: int|
                0 <= j < out.len() && 0 <= m < calls.len() && (#[trigger] out[j]).index == d.index
                    && (#[trigger] calls[m]).index == d.index ==> out[j] == merged(calls[m], d)
            &&& forall|j: int|
                0 <= j < out.len() && (#[trigger] out[j]).index == d.index && !holds_index(
                    calls,
                    d.index,
                ) ==> out[j] == merged(fresh_call(d.index), d)
        }),
    decreases calls.len(),
{
    let out = with_piece(calls, d);
    lemma_with_piece(calls, d);
    if calls.len() == 0 || calls[0].index > d.index {
        assert(out[0].index == d.index);
        assert forall|j: int| 0 <= j < out.len() && (#[trigger] out[j]).index != d.index implies calls.contains(
            out[j]) by {
            assert(out[j] == calls[j - 1]);
        }
        assert forall|m: int| 0 <= m < calls.len() && (#[trigger] calls[m]).index != d.index implies out.contains(
            calls[m]) by {
            assert(out[m + 1] == calls[m]);
        }
        assert forall|j: int| 1 <= j < out.len() implies (#[trigger] out[j]).index != d.index by {
            assert(out[0].index < out[j].index);
        }
        assert forall|m: int| 0 <= m < calls.len() implies (#[trigger] calls[m]).index != d.index by {
            assert(out[m + 1] == calls[m]);
        }
    } else if calls[0].index == d.index {
        assert(out[0].index == d.index);
        assert forall|j: int| 0 <= j < out.len() && (#[trigger] out[j]).index != d.index implies calls.contains(
            out[j]) by {
            assert(out[j] == calls[j]);
        }
        assert forall|m: int| 0 <= m < calls.len() && (#[trigger] calls[m]).index != d.index implies out.contains(
            calls[m]) by {
            assert(out[m] == calls[m]);
        }
        assert forall|j: int| 1 <= j < out.len() implies (#[trigger] out[j]).index != d.index by {
            assert(out[0].index < out[j].index);
        }
        assert forall|m: int| 1 <= m < calls.len() implies (#[trigger] calls[m]).index != d.index by {
            assert(calls[0].index < calls[m].index);
        }
        assert(holds_index(calls, d.index));
    } else {
        let rest = calls.skip(1);
        assert forall|i: int, j: int| 0 <= i < j < rest.len() implies (#[trigger] rest[i]).index < (
        #[trigger] rest[j]).index by {
            assert(rest[i] == calls[i + 1] && rest[j] == calls[j + 1]);
        }
        lemma_piece_taken(rest, d);
        let tail = with_piece(rest, d);
        let t = choose|t: int| 0 <= t < tail.len() && (#[trigger] tail[t]).index == d.index;
        assert(out[t + 1] == tail[t]);
        assert forall|j: int| 0 <= j < out.len() && (#[trigger] out[j]).index != d.index implies calls.contains(
            out[j]) by {
            if j == 0 {
                assert(calls[0] == out[0]);
            } else {
                assert(out[j] == tail[j - 1]);
                let k = choose|k: int| 0 <= k < rest.len() && rest[k] == tail[j - 1];
                assert(calls[k + 1] == out[j]);
            }
        }
        assert forall|m: int| 0 <= m < calls.len() && (#[trigger] calls[m]).index != d.index implies out.contains(
            calls[m]) by {
            if m == 0 {
                assert(out[0] == calls[0]);
            } else {
                assert(rest[m - 1] == calls[m]);
                let k = choose|k: int| 0 <= k < tail.len() && tail[k] == rest[m - 1];
                assert(out[k + 1] == calls[m]);
            }
        }
        assert forall|j: int, m: int| 0 <= j < out.len() && 0 <= m < calls.len() && (
        #[trigger] out[j]).index == d.index && (#[trigger] calls[m]).index == d.index implies out[j]
            == merged(calls[m], d) by {
            assert(out[j] == tail[j - 1]);
            assert(calls[m] == rest[m - 1]);
        }
        assert forall|j: int| 0 <= j < out.len() && (#[trigger] out[j]).index == d.index
            && !holds_index(calls, d.index) implies out[j] == merged(fresh_call(d.index), d) by {
            assert(out[j] == tail[j - 1]);
            if holds_index(rest, d.index) {
                let k = choose|k: int| 0 <= k < rest.len() && (#[trigger] rest[k]).index == d.index;
                assert(calls[k + 1].index == d.index);
            }
        }
    }
}

proof fn lemma_untold(ds: Seq<CallDeltaV>, index: u32)
    requires
        !names(ds, index),
    ensures
        told(ds, index) == fresh_call(index),
    decreases ds.len(),
{
    if ds.len() > 0 {
        let front = ds.drop_last();
        if names(front, index) {
            let i = choose|i: int| 0 <= i < front.len() && (#[trigger] front[i]).index == index;
            assert(ds[i].index == index);
        }
        lemma_untold(front, index);
        assert(ds[ds.len() - 1].index != index);
    }
}

proof fn lemma_gathers_piece(calls: Seq<GatheredV>, ds: Seq<CallDeltaV>, d: CallDeltaV)
    requires
        gathers(calls, ds),
    ensures
        gathers(with_piece(calls, d), ds.push(d)),
{
    let out = with_piece(calls, d);
    let more = ds.push(d);
    lemma_with_piece(calls, d);
    lemma_piece_taken(calls, d);
    assert(more.drop_last() =~= ds);
    assert forall|j: int| 0 <= j < out.len() implies #[trigger] out[j] == told(more, out[j].index)
        && names(more, out[j].index) by {
        if out[j].index == d.index {
            assert(more[ds.len() as int].index == d.index);
            if holds_index(calls, d.index) {
                let m = choose|m: int|
                    0 <= m < calls.len() && (#[trigger] calls[m]).index == d.index;
                assert(out[j] == merged(calls[m], d));
            } else {
                if names(ds, d.index) {
                    let i = choose|i: int| 0 <= i < ds.len() && (#[trigger] ds[i]).index == d.index;
                    assert(holds_index(calls, ds[i].index));
                }
                lemma_untold(ds, d.index);
            }
        } else {
            let m = choose|m: int| 0 <= m < calls.len() && calls[m] == out[j];
            assert(names(ds, calls[m].index));
            let i = choose|i: int| 0 <= i < ds.len() && (#[trigger] ds[i]).index == calls[m].index;
            assert(more[i].index == out[j].index);
        }
    }
    assert forall|i: int| 0 <= i < more.len() implies holds_index(out, (#[trigger] more[i]).index) by {
        if i < ds.len() {
            assert(more[i] == ds[i]);
            assert(holds_index(calls, ds[i].index));
            if more[i].index != d.index {
                let m = choose|m: int|
                    0 <= m < calls.len() && (#[trigger] calls[m]).index == ds[i].index;
                let j = choose|j: int| 0 <= j < out.len() && out[j] == calls[m];
                assert(out[j].index == more[i].index);
            }
        }
    }
}

proof fn lemma_gathers_pieces(calls: Seq<GatheredV>, ds: Seq<CallDeltaV>, new: Seq<CallDeltaV>)
    requires
        gathers(calls, ds),
    ensures
        gathers(with_pieces(calls, new), ds + new),
    decreases new.len(),
{
    if new.len() == 0 {
        assert(ds + new =~= ds);
    } else {
        let front = new.drop_last();
        lemma_gathers_pieces(calls, ds, front);
        lemma_gathers_piece(with_pieces(calls, front), ds + front, new.last());
        assert((ds + front).push(new.last()) =~= ds + new);
    }
}

/// The answer is what the choices tell: all of their text, and a call for each index with all of its
/// pieces.
pub open spec fn tells_stream(a: AnswerV, cs: Seq<ChoiceV>) -> bool {
    a.text == said(cs) && gathers(a.calls, pieces_of(cs))
}

proof fn lemma_tells_choices(a: AnswerV, cs: Seq<ChoiceV>, new: Seq<ChoiceV>)
    requires
        tells_stream(a, cs),
    ensures
        tells_stream(with_choices(a, new), cs + new),
    decreases new.len(),
{
    if new.len() == 0 {
        assert(cs + new =~= cs);
    } else {
        let front = new.drop_last();
        lemma_tells_choices(a, cs, front);
        let b = with_choices(a, front);
        let c = new.last();
        lemma_gathers_pieces(b.calls, pieces_of(cs + front), c.tool_calls);
        let all = cs + new;
        assert(all.drop_last() =~= cs + front);
        assert(all.last() == c);
    }
}

/// The answer that the chunks give, taken in one after the other.
pub open spec fn gathered(chunks: Seq<ChunkV>) -> AnswerV
    decreases chunks.len(),
{
    if chunks.len() == 0 {
        no_answer()
    } else {
        with_chunk(gathered(chunks.drop_last()), chunks.last())
    }
}

/// Nothing of a stream is lost and nothing is mixed: the answer's text is the text of all the chunks,
/// piece behind piece, and it has one call for each index, with the identifier and the name that came
/// last and with all of its arguments, piece behind piece.
pub proof fn lemma_stream_is_gathered(chunks: Seq<ChunkV>)
    ensures
        gathered(chunks).text == said(choices_of(chunks)),
        gathers(gathered(chunks).calls, pieces_of(choices_of(chunks))),
    decreases chunks.len(),
{
    if chunks.len() > 0 {
        let front = chunks.drop_last();
        lemma_stream_is_gathered(front);
        let a = with_usage(gathered(front), chunks.last());
        assert(tells_stream(a, choices_of(front)));
        lemma_tells_choices(a, choices_of(front), chunks.last().choices);
    }
}

/// A stream that ended well is answered with all that it told: the text first, whole, where there is
/// any, whether or not there are calls, and then a block for each call, in order.
pub proof fn lemma_answer_is_complete(a: AnswerV, r: CallResult)
    requires
        terminal(a),
        finished(a, r),
    ensures
        r is Success,
        ({
            let content = r->Success_0@.content;
            let first = if a.text.len() > 0 {
                1int
            } else {
                0int
            };
            &&& content.len() == first + a.calls.len()
            &&& a.text.len() > 0 ==> content[0] == (BlockV::Text { text: a.text })
            &&& forall|j: int|
                0 <= j < a.calls.len() ==> {
                    let b = content[first + j];
                    &&& b is ToolCall
                    &&& b->id == (#[trigger] a.calls[j]).id
                    &&& b->name == a.calls[j].name
                    &&& json_parse(a.calls[j].arguments) is Some && a.calls[j].arguments.len() > 0
                        ==> json_parse(a.calls[j].arguments) == Some(b->input)
                    &&& json_parse(a.calls[j].arguments) is None || a.calls[j].arguments.len() == 0
                        ==> b->input == JsonV::Null
                }
        }),
{
}

/// From the chunks to the response: a stream with text is answered with a block of all its text, and
/// with a block for every call that a piece named.
pub proof fn lemma_response_of_stream(chunks: Seq<ChunkV>, r: CallResult, i: int)
    requires
        terminal(gathered(chunks)),
        finished(gathered(chunks), r),
    ensures
        r is Success,
        ({
            let content = r->Success_0@.content;
            let text = said(choices_of(chunks));
            let ds = pieces_of(choices_of(chunks));
            &&& text.len() > 0 ==> content.len() > 0 && content[0] == (BlockV::Text { text })
            &&& 0 <= i < ds.len() ==> exists|j: int|
                0 <= j < content.len() && (#[trigger] content[j]) is ToolCall && content[j]->id
                    == told(ds, ds[i].index).id && content[j]->name == told(ds, ds[i].index).name
        }),
{
    let a = gathered(chunks);
    lemma_stream_is_gathered(chunks);
    lemma_answer_is_complete(a, r);
    let content = r->Success_0@.content;
    let ds = pieces_of(choices_of(chunks));
    if 0 <= i < ds.len() {
        assert(holds_index(a.calls, ds[i].index));
        let j = choose|j: int|
            0 <= j < a.calls.len() && (#[trigger] a.calls[j]).index == ds[i].index;
        assert(a.calls[j] == told(ds, ds[i].index));
        let first = if a.text.len() > 0 {
            1int
        } else {
            0int
        };
        assert(content[first + j] is ToolCall);
    }
}

/// The reason that is passed on tells a call for tools from every other end, and each end from the
/// others.
pub proof fn lemma_stop_reasons(a: AnswerV)
    ensures
        stop_reason(a) == "tool_call"@ <==> a.finish == Some(FinishReason::ToolCalls) || a.finish
            == Some(FinishReason::FunctionCall),
        stop_reason(a) == "stop"@ <==> a.finish == Some(FinishReason::Stop),
        stop_reason(a) == "max_tokens"@ <==> a.finish == Some(FinishReason::Length),
        stop_reason(a) == "content_filter"@ <==> a.finish == Some(FinishReason::ContentFilter),
        stop_reason(a) == "unknown"@ <==> a.finish is None,
{
    reveal_strlit("tool_call");
    reveal_strlit("stop");
    reveal_strlit("max_tokens");
    reveal_strlit("content_filter");
    reveal_strlit("unknown");
    assert("tool_call"@[0] != "stop"@[0]);
    assert("tool_call"@.len() == 9);
    assert("max_tokens"@.len() == 10);
    assert("content_filter"@.len() == 14);
    assert("unknown"@.len() == 7);
    assert("stop"@.len() == 4);
}

// ---- log text ----

/// The log lines of a block at index `i`.
pub open spec fn log_block(i: nat, b: BlockV) -> Seq<char> {
    match b {
        BlockV::Text { text } => "[resp] block["@ + decimal(i) + "] text:\n"@ + text + if "\n"@.is_suffix_of(
            text,
        ) {
            Seq::empty()
        } else {
            "\n"@
        },
        BlockV::ToolCall { id, name, input } => "[resp] block["@ + decimal(i) + "] tool_call("@ + id
            + ": "@ + name + "): "@ + json_compact(input) + "\n"@,
        BlockV::ToolOutput { call_id, content } => "[resp] block["@ + decimal(i)
            + "] tool_output("@ + call_id + "): "@ + content + "\n"@,
    }
}

/// The log lines of the blocks.
pub open spec fn log_blocks(s: Seq<BlockV>) -> Seq<char>
    decreases s.len(),
{
    if s.len() == 0 {
        Seq::empty()
    } else {
        log_blocks(s.drop_last()) + log_block((s.len() - 1) as nat, s.last())
    }
}

/// The blocks of a response as readable lines: texts in full, calls with their input.
pub fn format_response_for_log(content: &[ContentBlock]) -> (r: String)
    ensures
        r@ == trim_end(log_blocks(blocks_view(content@))),
{
    let ghost all = blocks_view(content@);
    let mut out = String::new();
    let mut i: usize = 0;
    while i < content.len()
        invariant
            i <= content@.len(),
            all == blocks_view(content@),
            out@ == log_blocks(all.take(i as int)),
        decreases content@.len() - i,
    {
        assert(all.take(i + 1).drop_last() =~= all.take(i as int));
        assert(all.take(i + 1).last() == content@[i as int]@);
        let ghost before = out@;
        out.append("[resp] block[");
        out.append(decimal_usize(i).as_str());
        match &content[i] {
            ContentBlock::Text { text } => {
                out.append("] text:\n");
                out.append(text.as_str());
                if !str_ends_with(text.as_str(), "\n") {
                    out.append("\n");
                }
            },
            ContentBlock::ToolCall { id, name, input } => {
                out.append("] tool_call(");
                out.append(id.as_str());
                out.append(": ");
                out.append(name.as_str());
                out.append("): ");
                out.append(json_text(input).as_str());
                out.append("\n");
            },
            ContentBlock::ToolOutput { call_id, content } => {
                out.append("] tool_output(");
                out.append(call_id.as_str());
                out.append("): ");
                out.append(content.as_str());
                out.append("\n");
            },
        }
        assert(out@ =~= before + log_block(i as nat, content@[i as int]@));
        i = i + 1;
    }
    assert(all.take(content@.len() as int) =~= all);
    trimmed_end(out.as_str())
}

} // verus!

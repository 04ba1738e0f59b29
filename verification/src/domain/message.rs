//! Messages, content blocks and responses.

use vstd::prelude::*;

use crate::json::{json_compact, json_text, Json, JsonV};
use crate::select::{
    holds, lemma_holds_behind, lemma_holds_itself, lemma_holds_joined, lemma_holds_three,
    lemma_holds_two, lemma_holds_within, lemma_selects_nothing, lemma_selects_push, selects,
};
use crate::text::{join, joined, owned, texts};

verus! {

broadcast use vstd::string::group_string_axioms;

/// Conversation role.
#[derive(Debug, Clone, Copy, PartialEq, Eq, Structural)]
pub enum Role {
    System,
    User,
    Assistant,
}

/// The wire word of a role.
pub open spec fn role_word(r: Role) -> Seq<char> {
    match r {
        Role::System => "system"@,
        Role::User => "user"@,
        Role::Assistant => "assistant"@,
    }
}

impl Role {
    /// Wire string for this role (`"system"` / `"user"` / `"assistant"`).
    pub fn as_str(&self) -> (r: &'static str)
        ensures
            r@ == role_word(*self),
    {
        match self {
            Role::System => "system",
            Role::User => "user",
            Role::Assistant => "assistant",
        }
    }
}

impl Default for Role {
    fn default() -> (r: Self)
        ensures
            r == Role::User,
    {
        Role::User
    }
}

/// A message.
#[derive(Debug, PartialEq)]
pub struct Message {
    pub role: Role,
    pub content: Vec<ContentBlock>,
}

/// A content block: shared by requests and responses.
#[derive(Debug, PartialEq)]
pub enum ContentBlock {
    Text { text: String },
    ToolCall { id: String, name: String, input: Json },
    ToolOutput { call_id: String, content: String },
}

/// The mathematical value of a content block.
#[verifier::ext_equal]
pub enum BlockV {
    Text { text: Seq<char> },
    ToolCall { id: Seq<char>, name: Seq<char>, input: JsonV },
    ToolOutput { call_id: Seq<char>, content: Seq<char> },
}

/// The mathematical value of a message.
#[verifier::ext_equal]
pub struct MessageV {
    pub role: Role,
    pub content: Seq<BlockV>,
}

impl View for ContentBlock {
    type V = BlockV;

    open spec fn view(&self) -> BlockV {
        match *self {
            ContentBlock::Text { text } => BlockV::Text { text: text@ },
            ContentBlock::ToolCall { id, name, input } => BlockV::ToolCall {
                id: id@,
                name: name@,
                input: input@,
            },
            ContentBlock::ToolOutput { call_id, content } => BlockV::ToolOutput {
                call_id: call_id@,
                content: content@,
            },
        }
    }
}

/// The values of a list of content blocks.
pub open spec fn blocks_view(s: Seq<ContentBlock>) -> Seq<BlockV> {
    s.map_values(|b: ContentBlock| b@)
}

impl View for Message {
    type V = MessageV;

    open spec fn view(&self) -> MessageV {
        MessageV { role: self.role, content: blocks_view(self.content@) }
    }
}

/// The values of a list of messages.
pub open spec fn messages_view(s: Seq<Message>) -> Seq<MessageV> {
    s.map_values(|m: Message| m@)
}

impl ContentBlock {
    /// Build a Text block.
    pub fn text(text: &str) -> (r: Self)
        ensures
            r@ == (BlockV::Text { text: text@ }),
    {
        ContentBlock::Text { text: owned(text) }
    }

    /// Build a ToolOutput block.
    pub fn tool_output(call_id: &str, content: &str) -> (r: Self)
        ensures
            r@ == (BlockV::ToolOutput { call_id: call_id@, content: content@ }),
    {
        ContentBlock::ToolOutput { call_id: owned(call_id), content: owned(content) }
    }

    /// A copy of the block.
    pub fn dup(&self) -> (r: Self)
        ensures
            r@ == self@,
    {
        match self {
            ContentBlock::Text { text } => ContentBlock::Text { text: text.clone() },
            ContentBlock::ToolCall { id, name, input } => ContentBlock::ToolCall {
                id: id.clone(),
                name: name.clone(),
                input: input.dup(),
            },
            ContentBlock::ToolOutput { call_id, content } => ContentBlock::ToolOutput {
                call_id: call_id.clone(),
                content: content.clone(),
            },
        }
    }
}

impl Clone for ContentBlock {
    fn clone(&self) -> (r: Self)
        ensures
            r@ == self@,
    {
        self.dup()
    }
}

/// A copy of the blocks.
pub fn dup_blocks(blocks: &[ContentBlock]) -> (r: Vec<ContentBlock>)
    ensures
        blocks_view(r@) == blocks_view(blocks@),
{
    let mut out: Vec<ContentBlock> = Vec::new();
    let mut i: usize = 0;
    while i < blocks.len()
        invariant
            i <= blocks@.len(),
            out@.len() == i,
            forall|k: int| 0 <= k < i ==> (#[trigger] out@[k])@ == blocks@[k]@,
        decreases blocks@.len() - i,
    {
        out.push(blocks[i].dup());
        i = i + 1;
    }
    assert(blocks_view(out@) =~= blocks_view(blocks@));
    out
}

/// A message of one text block from the user.
pub open spec fn user_text_v(text: Seq<char>) -> MessageV {
    MessageV { role: Role::User, content: seq![BlockV::Text { text }] }
}

impl Message {
    /// Single user text message (one Text block).
    pub fn user_text(text: &str) -> (r: Self)
        ensures
            r@ == user_text_v(text@),
    {
        let mut content: Vec<ContentBlock> = Vec::new();
        content.push(ContentBlock::text(text));
        let r = Message { role: Role::User, content };
        assert(r@.content =~= seq![BlockV::Text { text: text@ }]);
        r
    }

    /// Single user tool-output message (one ToolOutput block).
    pub fn user_tool_output(call_id: &str, content: &str) -> (r: Self)
        ensures
            r@ == (MessageV {
                role: Role::User,
                content: seq![BlockV::ToolOutput { call_id: call_id@, content: content@ }],
            }),
    {
        let mut blocks: Vec<ContentBlock> = Vec::new();
        blocks.push(ContentBlock::tool_output(call_id, content));
        let r = Message { role: Role::User, content: blocks };
        assert(r@.content =~= seq![
            BlockV::ToolOutput { call_id: call_id@, content: content@ },
        ]);
        r
    }

    /// Assistant message wrapping existing content blocks.
    pub fn assistant_content(content: Vec<ContentBlock>) -> (r: Self)
        ensures
            r.role == Role::Assistant,
            r.content == content,
            r@ == (MessageV { role: Role::Assistant, content: blocks_view(content@) }),
    {
        Message { role: Role::Assistant, content }
    }

    /// User message wrapping existing content blocks.
    pub fn user_blocks(content: Vec<ContentBlock>) -> (r: Self)
        ensures
            r.role == Role::User,
            r.content == content,
            r@ == (MessageV { role: Role::User, content: blocks_view(content@) }),
    {
        Message { role: Role::User, content }
    }

    /// A builder to mix Text/ToolCall/ToolOutput blocks in one message.
    pub fn builder() -> (r: MessageBuilder)
        ensures
            r@ == (MessageV { role: Role::User, content: Seq::empty() }),
    {
        MessageBuilder::new()
    }

    /// A copy of the message.
    pub fn dup(&self) -> (r: Self)
        ensures
            r@ == self@,
    {
        Message { role: self.role, content: dup_blocks(&self.content) }
    }
}

impl Clone for Message {
    fn clone(&self) -> (r: Self)
        ensures
            r@ == self@,
    {
        self.dup()
    }
}

/// A copy of the messages.
pub fn dup_messages(messages: &[Message]) -> (r: Vec<Message>)
    ensures
        messages_view(r@) == messages_view(messages@),
{
    let mut out: Vec<Message> = Vec::new();
    let mut i: usize = 0;
    while i < messages.len()
        invariant
            i <= messages@.len(),
            out@.len() == i,
            forall|k: int| 0 <= k < i ==> (#[trigger] out@[k])@ == messages@[k]@,
        decreases messages@.len() - i,
    {
        out.push(messages[i].dup());
        i = i + 1;
    }
    assert(messages_view(out@) =~= messages_view(messages@));
    out
}

/// Builder to assemble a `Message` block by block.
pub struct MessageBuilder {
    role: Role,
    content: Vec<ContentBlock>,
}

impl View for MessageBuilder {
    type V = MessageV;

    closed spec fn view(&self) -> MessageV {
        MessageV { role: self.role, content: blocks_view(self.content@) }
    }
}

impl MessageBuilder {
    /// Empty builder for a user message.
    pub fn new() -> (r: Self)
        ensures
            r@ == (MessageV { role: Role::User, content: Seq::empty() }),
    {
        let r = MessageBuilder { role: Role::User, content: Vec::new() };
        assert(r@.content =~= Seq::<BlockV>::empty());
        r
    }

    /// Set role to user.
    pub fn user(self) -> (r: Self)
        ensures
            r@ == (MessageV { role: Role::User, ..self@ }),
    {
        MessageBuilder { role: Role::User, content: self.content }
    }

    /// Set role to assistant.
    pub fn assistant(self) -> (r: Self)
        ensures
            r@ == (MessageV { role: Role::Assistant, ..self@ }),
    {
        MessageBuilder { role: Role::Assistant, content: self.content }
    }

    /// Set the role.
    pub fn role(self, role: Role) -> (r: Self)
        ensures
            r@ == (MessageV { role, ..self@ }),
    {
        MessageBuilder { role, content: self.content }
    }

    /// Append a Text block.
    pub fn text(self, text: &str) -> (r: Self)
        ensures
            r@ == (MessageV {
                content: self@.content.push(BlockV::Text { text: text@ }),
                ..self@
            }),
    {
        self.block(ContentBlock::text(text))
    }

    /// Append a ToolCall block.
    pub fn tool_call(self, id: &str, name: &str, input: Json) -> (r: Self)
        ensures
            r@ == (MessageV {
                content: self@.content.push(
                    BlockV::ToolCall { id: id@, name: name@, input: input@ },
                ),
                ..self@
            }),
    {
        self.block(ContentBlock::ToolCall { id: owned(id), name: owned(name), input })
    }

    /// Append a ToolOutput block.
    pub fn tool_output(self, call_id: &str, content: &str) -> (r: Self)
        ensures
            r@ == (MessageV {
                content: self@.content.push(
                    BlockV::ToolOutput { call_id: call_id@, content: content@ },
                ),
                ..self@
            }),
    {
        self.block(ContentBlock::tool_output(call_id, content))
    }

    /// Append any content block.
    pub fn block(self, block: ContentBlock) -> (r: Self)
        ensures
            r@ == (MessageV { content: self@.content.push(block@), ..self@ }),
    {
        let ghost before = self@.content;
        let mut content = self.content;
        content.push(block);
        assert(blocks_view(content@) =~= before.push(block@));
        MessageBuilder { role: self.role, content }
    }

    /// Replace content with the given blocks.
    pub fn content(self, blocks: Vec<ContentBlock>) -> (r: Self)
        ensures
            r@ == (MessageV { content: blocks_view(blocks@), ..self@ }),
    {
        MessageBuilder { role: self.role, content: blocks }
    }

    /// Build the `Message`.
    pub fn build(self) -> (r: Message)
        ensures
            r@ == self@,
    {
        Message { role: self.role, content: self.content }
    }
}

/// Token usage of one model call.
#[derive(Debug, Clone, Copy, PartialEq, Eq, Structural)]
pub struct Usage {
    pub input_tokens: u64,
    pub output_tokens: u64,
}

impl Default for Usage {
    fn default() -> (r: Self)
        ensures
            r == (Usage { input_tokens: 0, output_tokens: 0 }),
    {
        Usage { input_tokens: 0, output_tokens: 0 }
    }
}

/// Model API response (accumulated stream result).
#[derive(Debug)]
pub struct MessagesResponse {
    pub content: Vec<ContentBlock>,
    pub finish_reason: String,
    pub usage: Option<Usage>,
}

/// The mathematical value of a response.
#[verifier::ext_equal]
pub struct ResponseV {
    pub content: Seq<BlockV>,
    pub finish_reason: Seq<char>,
    pub usage: Option<Usage>,
}

impl View for MessagesResponse {
    type V = ResponseV;

    open spec fn view(&self) -> ResponseV {
        ResponseV {
            content: blocks_view(self.content@),
            finish_reason: self.finish_reason@,
            usage: self.usage,
        }
    }
}

impl MessagesResponse {
    /// A copy of the response.
    pub fn dup(&self) -> (r: Self)
        ensures
            r@ == self@,
    {
        MessagesResponse {
            content: dup_blocks(self.content.as_slice()),
            finish_reason: self.finish_reason.clone(),
            usage: self.usage,
        }
    }
}

/// Result of a single stateless completion.
#[derive(Debug, Clone)]
pub struct CompletionResponse {
    pub content: String,
    pub prompt_tokens: u32,
    pub completion_tokens: u32,
}

// ---- text of blocks ----

/// The texts of the Text blocks, in order.
pub open spec fn block_texts(s: Seq<BlockV>) -> Seq<Seq<char>>
    decreases s.len(),
{
    if s.len() == 0 {
        Seq::empty()
    } else {
        match s.last() {
            BlockV::Text { text } => block_texts(s.drop_last()).push(text),
            _ => block_texts(s.drop_last()),
        }
    }
}

/// A block is text.
pub open spec fn is_text() -> spec_fn(BlockV) -> bool {
    |b: BlockV| b is Text
}

/// A block is a tool call.
pub open spec fn is_call() -> spec_fn(BlockV) -> bool {
    |b: BlockV| b is ToolCall
}

/// A block is a tool output.
pub open spec fn is_output() -> spec_fn(BlockV) -> bool {
    |b: BlockV| b is ToolOutput
}

/// The text of a block.
pub open spec fn its_text() -> spec_fn(BlockV) -> Seq<char> {
    |b: BlockV| b->text
}

/// Every text of the blocks is there, whole and in order, and nothing else is.
pub proof fn lemma_texts_selected(s: Seq<BlockV>)
    ensures
        selects(s, block_texts(s), is_text(), its_text()),
    decreases s.len(),
{
    if s.len() == 0 {
        lemma_selects_nothing::<BlockV, Seq<char>>(is_text(), its_text());
        assert(s =~= Seq::<BlockV>::empty());
    } else {
        let front = s.drop_last();
        lemma_texts_selected(front);
        lemma_selects_push(front, block_texts(front), is_text(), its_text(), s.last());
        assert(front.push(s.last()) =~= s);
    }
}

/// The text is made of every text of the blocks, whole and in order, one per line.
pub open spec fn tells(text: Seq<char>, blocks: Seq<BlockV>) -> bool {
    exists|parts: Seq<Seq<char>>| #[trigger]
        selects(blocks, parts, is_text(), its_text()) && text == join(parts, "\n"@)
}

/// There is a text among the blocks.
pub open spec fn some_text(blocks: Seq<BlockV>) -> bool {
    exists|k: int| 0 <= k < blocks.len() && (#[trigger] blocks[k]) is Text
}

/// There is a tool call among the blocks.
pub open spec fn some_call(blocks: Seq<BlockV>) -> bool {
    exists|k: int| 0 <= k < blocks.len() && (#[trigger] blocks[k]) is ToolCall
}

/// The texts of the Text blocks, in order.
pub fn text_parts(blocks: &[ContentBlock]) -> (r: Vec<String>)
    ensures
        texts(r@) == block_texts(blocks_view(blocks@)),
        selects(blocks_view(blocks@), texts(r@), is_text(), its_text()),
{
    proof {
        lemma_texts_selected(blocks_view(blocks@));
    }
    let mut out: Vec<String> = Vec::new();
    let mut i: usize = 0;
    let ghost all = blocks_view(blocks@);
    assert(texts(out@) =~= block_texts(all.take(0)));
    while i < blocks.len()
        invariant
            i <= blocks@.len(),
            all == blocks_view(blocks@),
            texts(out@) == block_texts(all.take(i as int)),
        decreases blocks@.len() - i,
    {
        assert(all.take(i + 1).drop_last() =~= all.take(i as int));
        let ghost before = texts(out@);
        match &blocks[i] {
            ContentBlock::Text { text } => {
                out.push(text.clone());
                assert(texts(out@) =~= before.push(text@));
            },
            _ => {},
        }
        i = i + 1;
    }
    assert(all.take(blocks@.len() as int) =~= all);
    out
}

/// The Text blocks of a response, one per line.
pub open spec fn response_text_v(s: Seq<BlockV>) -> Seq<char> {
    join(block_texts(s), "\n"@)
}

/// The Text blocks of a response, one per line.
pub fn response_text(blocks: &[ContentBlock]) -> (r: String)
    ensures
        r@ == response_text_v(blocks_view(blocks@)),
{
    let parts = text_parts(blocks);
    joined(&parts, "\n")
}

// ---- wire text ----

/// A text as a JSON string.
pub open spec fn quoted(s: Seq<char>) -> Seq<char> {
    json_compact(JsonV::Text(s))
}

/// A text as a JSON string.
pub fn quote(s: &str) -> (r: String)
    ensures
        r@ == quoted(s@),
{
    json_text(&crate::json::json_str(s))
}

/// The JSON text of a content block: an object tagged by `type`, its fields in declared order.
pub open spec fn block_wire(b: BlockV) -> Seq<char> {
    match b {
        BlockV::Text { text } => "{\"type\":\"text\",\"text\":"@ + quoted(text) + "}"@,
        BlockV::ToolCall { id, name, input } => "{\"type\":\"tool_call\",\"id\":"@ + quoted(id)
            + ",\"name\":"@ + quoted(name) + ",\"input\":"@ + json_compact(input) + "}"@,
        BlockV::ToolOutput { call_id, content } => "{\"type\":\"tool_output\",\"call_id\":"@
            + quoted(call_id) + ",\"content\":"@ + quoted(content) + "}"@,
    }
}

impl ContentBlock {
    /// The JSON text of the block.
    pub fn to_wire(&self) -> (r: String)
        ensures
            r@ == block_wire(self@),
    {
        let mut out = String::new();
        match self {
            ContentBlock::Text { text } => {
                out.append("{\"type\":\"text\",\"text\":");
                out.append(quote(text.as_str()).as_str());
            },
            ContentBlock::ToolCall { id, name, input } => {
                out.append("{\"type\":\"tool_call\",\"id\":");
                out.append(quote(id.as_str()).as_str());
                out.append(",\"name\":");
                out.append(quote(name.as_str()).as_str());
                out.append(",\"input\":");
                out.append(json_text(input).as_str());
            },
            ContentBlock::ToolOutput { call_id, content } => {
                out.append("{\"type\":\"tool_output\",\"call_id\":");
                out.append(quote(call_id.as_str()).as_str());
                out.append(",\"content\":");
                out.append(quote(content.as_str()).as_str());
            },
        }
        out.append("}");
        assert(out@ =~= block_wire(self@));
        out
    }
}

/// The JSON texts of the blocks.
pub open spec fn blocks_wire(s: Seq<BlockV>) -> Seq<Seq<char>> {
    s.map_values(|b: BlockV| block_wire(b))
}

/// The JSON text of a message.
pub open spec fn message_wire(m: MessageV) -> Seq<char> {
    "{\"role\":"@ + quoted(role_word(m.role)) + ",\"content\":["@ + crate::text::join(
        blocks_wire(m.content),
        ","@,
    ) + "]}"@
}

impl Message {
    /// The JSON text of the message.
    pub fn to_wire(&self) -> (r: String)
        ensures
            r@ == message_wire(self@),
    {
        let mut parts: Vec<String> = Vec::new();
        let mut i: usize = 0;
        while i < self.content.len()
            invariant
                i <= self.content@.len(),
                parts@.len() == i,
                forall|k: int|
                    0 <= k < i ==> (#[trigger] parts@[k])@ == block_wire(self.content@[k]@),
            decreases self.content@.len() - i,
        {
            parts.push(self.content[i].to_wire());
            i = i + 1;
        }
        assert(crate::text::texts(parts@) =~= blocks_wire(self@.content));
        let mut out = String::new();
        out.append("{\"role\":");
        out.append(quote(self.role.as_str()).as_str());
        out.append(",\"content\":[");
        out.append(crate::text::joined(&parts, ",").as_str());
        out.append("]}");
        assert(out@ =~= message_wire(self@));
        out
    }
}

/// The JSON text of a list of messages.
pub open spec fn messages_wire(s: Seq<MessageV>) -> Seq<char> {
    "["@ + crate::text::join(s.map_values(|m: MessageV| message_wire(m)), ","@) + "]"@
}

/// The JSON text of the messages.
pub fn messages_to_wire(messages: &[Message]) -> (r: String)
    ensures
        r@ == messages_wire(messages_view(messages@)),
{
    let mut parts: Vec<String> = Vec::new();
    let mut i: usize = 0;
    while i < messages.len()
        invariant
            i <= messages@.len(),
            parts@.len() == i,
            forall|k: int|
                0 <= k < i ==> (#[trigger] parts@[k])@ == message_wire(messages@[k]@),
        decreases messages@.len() - i,
    {
        parts.push(messages[i].to_wire());
        i = i + 1;
    }
    assert(crate::text::texts(parts@) =~= messages_view(messages@).map_values(
        |m: MessageV| message_wire(m),
    ));
    let mut out = String::new();
    out.append("[");
    out.append(crate::text::joined(&parts, ",").as_str());
    out.append("]");
    out
}

// ---- what the wire text tells ----

/// The JSON text of a block tells each of its parts, whole and in order.
pub proof fn lemma_block_wire_tells(b: BlockV)
    ensures
        match b {
            BlockV::Text { text } => holds(block_wire(b), seq![quoted(text)]),
            BlockV::ToolCall { id, name, input } => holds(
                block_wire(b),
                seq![quoted(id), quoted(name), json_compact(input)],
            ),
            BlockV::ToolOutput { call_id, content } => holds(
                block_wire(b),
                seq![quoted(call_id), quoted(content)],
            ),
        },
{
    match b {
        BlockV::Text { text } => {
            lemma_holds_itself(quoted(text));
            lemma_holds_within(
                "{\"type\":\"text\",\"text\":"@,
                quoted(text),
                "}"@,
                seq![quoted(text)],
            );
        },
        BlockV::ToolCall { id, name, input } => {
            lemma_holds_three(
                "{\"type\":\"tool_call\",\"id\":"@,
                quoted(id),
                ",\"name\":"@,
                quoted(name),
                ",\"input\":"@,
                json_compact(input),
                "}"@,
            );
        },
        BlockV::ToolOutput { call_id, content } => {
            lemma_holds_two(
                "{\"type\":\"tool_output\",\"call_id\":"@,
                quoted(call_id),
                ",\"content\":"@,
                quoted(content),
                "}"@,
            );
        },
    }
}

/// The JSON text of a message tells its role and then every block, whole and in order.
pub proof fn lemma_message_wire_tells(m: MessageV)
    ensures
        holds(
            message_wire(m),
            seq![quoted(role_word(m.role))] + m.content.map_values(|b: BlockV| block_wire(b)),
        ),
{
    let parts = blocks_wire(m.content);
    let role = quoted(role_word(m.role));
    let body = join(parts, ","@);
    lemma_holds_joined(parts, ","@);
    lemma_holds_behind(role, ",\"content\":["@, body, parts);
    let inner = role + ",\"content\":["@ + body;
    lemma_holds_within("{\"role\":"@, inner, "]}"@, seq![role] + parts);
    assert("{\"role\":"@ + inner + "]}"@ =~= message_wire(m));
    assert(parts =~= m.content.map_values(|b: BlockV| block_wire(b)));
}

/// The JSON text of a conversation tells every message, whole and in order.
pub proof fn lemma_messages_wire_tells(s: Seq<MessageV>)
    ensures
        holds(messages_wire(s), s.map_values(|m: MessageV| message_wire(m))),
{
    let parts = s.map_values(|m: MessageV| message_wire(m));
    lemma_holds_joined(parts, ","@);
    lemma_holds_within("["@, join(parts, ","@), "]"@, parts);
}

/// The roles have words of their own.
pub proof fn lemma_roles_differ(a: Role, b: Role)
    requires
        role_word(a) == role_word(b),
    ensures
        a == b,
{
    reveal_strlit("system");
    reveal_strlit("user");
    reveal_strlit("assistant");
    assert("system"@.len() == 6);
    assert("user"@.len() == 4);
    assert("assistant"@.len() == 9);
}

} // verus!

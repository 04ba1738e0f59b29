//! Fingerprints of requests: ids are left out, changing texts are masked, and the rest is hashed.
//!
//! The system prompt does not count, since it holds the time and the workspace.

use vstd::prelude::*;

use crate::domain::message::{messages_view, role_word, BlockV, ContentBlock, Message, MessageV};
use crate::json::{
    fields_view, json_compact, json_str, json_text, lemma_list_view, list_view, Json, JsonV,
};
use crate::pattern::{escape, regex_escaped, regex_replaced, replace_all};
use crate::text::{char_count, concat2, hex_bytes, hex_encode, owned};
use crate::tools::{object, put};

verus! {

broadcast use vstd::string::group_string_axioms;

/// A mask: what the pattern matches is replaced.
#[derive(Debug)]
pub struct MaskRule {
    pub pattern: String,
    pub replace: String,
}

/// The masks, applied in order.
#[derive(Debug)]
pub struct MaskRules {
    pub masks: Vec<MaskRule>,
}

/// The patterns and replacements of masks.
pub open spec fn rules_view(s: Seq<MaskRule>) -> Seq<(Seq<char>, Seq<char>)> {
    s.map_values(|m: MaskRule| (m.pattern@, m.replace@))
}

impl View for MaskRules {
    type V = Seq<(Seq<char>, Seq<char>)>;

    open spec fn view(&self) -> Seq<(Seq<char>, Seq<char>)> {
        rules_view(self.masks@)
    }
}

/// The built-in masks: times in UTC, local times, and UUIDs.
pub open spec fn default_masks() -> Seq<(Seq<char>, Seq<char>)> {
    seq![
        ("\\d{4}-\\d{2}-\\d{2}T\\d{2}:\\d{2}:\\d{2}Z"@, "<TS>"@),
        ("\\d{4}-\\d{2}-\\d{2} \\d{2}:\\d{2}:\\d{2}"@, "<TS>"@),
        (
            "[0-9a-f]{8}-[0-9a-f]{4}-[0-9a-f]{4}-[0-9a-f]{4}-[0-9a-f]{12}"@,
            "<UUID>"@,
        ),
    ]
}

/// The text with the masks applied in order; a mask whose pattern is none is passed over.
pub open spec fn masked(rules: Seq<(Seq<char>, Seq<char>)>, text: Seq<char>) -> Seq<char>
    decreases rules.len(),
{
    if rules.len() == 0 {
        text
    } else {
        let before = masked(rules.drop_last(), text);
        match regex_replaced(rules.last().0, before, rules.last().1) {
            Some(t) => t,
            None => before,
        }
    }
}

fn rule(pattern: &str, replace: &str) -> (r: MaskRule)
    ensures
        r.pattern@ == pattern@,
        r.replace@ == replace@,
{
    MaskRule { pattern: owned(pattern), replace: owned(replace) }
}

impl MaskRules {
    /// No masks.
    pub fn empty() -> (r: Self)
        ensures
            r@ == Seq::<(Seq<char>, Seq<char>)>::empty(),
    {
        let r = MaskRules { masks: Vec::new() };
        assert(r@ =~= Seq::<(Seq<char>, Seq<char>)>::empty());
        r
    }

    /// The built-in masks.
    pub fn default_rules() -> (r: Self)
        ensures
            r@ == default_masks(),
    {
        let mut masks: Vec<MaskRule> = Vec::new();
        masks.push(rule("\\d{4}-\\d{2}-\\d{2}T\\d{2}:\\d{2}:\\d{2}Z", "<TS>"));
        masks.push(rule("\\d{4}-\\d{2}-\\d{2} \\d{2}:\\d{2}:\\d{2}", "<TS>"));
        masks.push(
            rule("[0-9a-f]{8}-[0-9a-f]{4}-[0-9a-f]{4}-[0-9a-f]{4}-[0-9a-f]{12}", "<UUID>"),
        );
        let r = MaskRules { masks };
        assert(r@ =~= default_masks());
        r
    }

    /// The masks of a file: the built-in ones where there is no file, or where it cannot be read.
    pub fn load_or_default(found: Option<Result<MaskRules, String>>) -> (r: Self)
        ensures
            match found {
                Some(Ok(rules)) => r == rules,
                _ => r@ == default_masks(),
            },
    {
        match found {
            Some(Ok(rules)) => rules,
            _ => MaskRules::default_rules(),
        }
    }

    /// One more mask, for a text as it stands.
    pub fn with_literal(self, literal: &str, replace: &str) -> (r: Self)
        ensures
            r@ == if literal@.len() == 0 {
                self@
            } else {
                self@.push((regex_escaped(literal@), replace@))
            },
    {
        if char_count(literal) == 0 {
            return self;
        }
        let ghost before = self@;
        let mut masks = self.masks;
        let pattern = escape(literal);
        masks.push(MaskRule { pattern, replace: owned(replace) });
        let r = MaskRules { masks };
        assert(r@ =~= before.push((regex_escaped(literal@), replace@)));
        r
    }

    /// The text with the masks applied in order.
    pub fn mask_text(&self, text: &str) -> (r: String)
        ensures
            r@ == masked(self@, text@),
    {
        let ghost all = self@;
        let mut out = owned(text);
        let mut i: usize = 0;
        assert(all.take(0) =~= Seq::empty());
        while i < self.masks.len()
            invariant
                i <= self.masks@.len(),
                all == self@,
                out@ == masked(all.take(i as int), text@),
            decreases self.masks@.len() - i,
        {
            let m = &self.masks[i];
            assert(all.take(i + 1).drop_last() =~= all.take(i as int));
            assert(all.take(i + 1).last() == (m.pattern@, m.replace@));
            match replace_all(m.pattern.as_str(), out.as_str(), m.replace.as_str()) {
                Some(t) => {
                    out = t;
                },
                None => {},
            }
            i += 1;
        }
        assert(all.take(self.masks@.len() as int) =~= all);
        out
    }

    /// A copy of the masks.
    pub fn dup(&self) -> (r: Self)
        ensures
            r@ == self@,
    {
        let ghost all = self@;
        let mut masks: Vec<MaskRule> = Vec::new();
        let mut i: usize = 0;
        while i < self.masks.len()
            invariant
                i <= self.masks@.len(),
                all == self@,
                rules_view(masks@) == all.take(i as int),
            decreases self.masks@.len() - i,
        {
            let ghost before = rules_view(masks@);
            masks.push(rule(self.masks[i].pattern.as_str(), self.masks[i].replace.as_str()));
            assert(rules_view(masks@) =~= before.push(all[i as int]));
            assert(all.take(i + 1) =~= before.push(all[i as int]));
            i += 1;
        }
        assert(all.take(self.masks@.len() as int) =~= all);
        MaskRules { masks }
    }
}

// ---- canonical form ----

/// A block as it counts: without its id, with its texts masked.
pub open spec fn canonical_block(b: BlockV, rules: Seq<(Seq<char>, Seq<char>)>) -> JsonV {
    match b {
        BlockV::Text { text } => JsonV::Object(
            seq![
                ("type"@, JsonV::Text("text"@)),
                ("text"@, JsonV::Text(masked(rules, text))),
            ],
        ),
        BlockV::ToolCall { id: _, name, input } => JsonV::Object(
            seq![
                ("type"@, JsonV::Text("tool_call"@)),
                ("id"@, JsonV::Text("<ID>"@)),
                ("name"@, JsonV::Text(name)),
                ("input"@, JsonV::Text(masked(rules, json_compact(input)))),
            ],
        ),
        BlockV::ToolOutput { call_id: _, content } => JsonV::Object(
            seq![
                ("type"@, JsonV::Text("tool_output"@)),
                ("call_id"@, JsonV::Text("<ID>"@)),
                ("content"@, JsonV::Text(masked(rules, content))),
            ],
        ),
    }
}

/// A message as it counts.
pub open spec fn canonical_message(m: MessageV, rules: Seq<(Seq<char>, Seq<char>)>) -> JsonV {
    JsonV::Object(
        seq![
            ("role"@, JsonV::Text(role_word(m.role))),
            (
                "content"@,
                JsonV::Array(m.content.map_values(|b: BlockV| canonical_block(b, rules))),
            ),
        ],
    )
}

/// A request as it counts.
pub open spec fn canonical(messages: Seq<MessageV>, rules: Seq<(Seq<char>, Seq<char>)>) -> JsonV {
    JsonV::Array(messages.map_values(|m: MessageV| canonical_message(m, rules)))
}

fn block_value(b: &ContentBlock, masks: &MaskRules) -> (r: Json)
    ensures
        r@ == canonical_block(b@, masks@),
{
    let mut fields: Vec<(String, Json)> = Vec::new();
    match b {
        ContentBlock::Text { text } => {
            put(&mut fields, "type", json_str("text"));
            put(&mut fields, "text", json_str(masks.mask_text(text.as_str()).as_str()));
            assert(fields_view(fields@) =~= seq![
                ("type"@, JsonV::Text("text"@)),
                ("text"@, JsonV::Text(masked(masks@, text@))),
            ]);
        },
        ContentBlock::ToolCall { id: _, name, input } => {
            put(&mut fields, "type", json_str("tool_call"));
            put(&mut fields, "id", json_str("<ID>"));
            put(&mut fields, "name", json_str(name.as_str()));
            let text = json_text(input);
            put(&mut fields, "input", json_str(masks.mask_text(text.as_str()).as_str()));
            assert(fields_view(fields@) =~= seq![
                ("type"@, JsonV::Text("tool_call"@)),
                ("id"@, JsonV::Text("<ID>"@)),
                ("name"@, JsonV::Text(name@)),
                ("input"@, JsonV::Text(masked(masks@, json_compact(input@)))),
            ]);
        },
        ContentBlock::ToolOutput { call_id: _, content } => {
            put(&mut fields, "type", json_str("tool_output"));
            put(&mut fields, "call_id", json_str("<ID>"));
            put(&mut fields, "content", json_str(masks.mask_text(content.as_str()).as_str()));
            assert(fields_view(fields@) =~= seq![
                ("type"@, JsonV::Text("tool_output"@)),
                ("call_id"@, JsonV::Text("<ID>"@)),
                ("content"@, JsonV::Text(masked(masks@, content@))),
            ]);
        },
    }
    object(fields)
}

fn message_value(m: &Message, masks: &MaskRules) -> (r: Json)
    ensures
        r@ == canonical_message(m@, masks@),
{
    let ghost goal = m@.content.map_values(|b: BlockV| canonical_block(b, masks@));
    let mut blocks: Vec<Json> = Vec::new();
    assert(list_view(blocks@) =~= goal.take(0));
    let mut i: usize = 0;
    while i < m.content.len()
        invariant
            i <= m.content@.len(),
            goal == m@.content.map_values(|b: BlockV| canonical_block(b, masks@)),
            list_view(blocks@) == goal.take(i as int),
        decreases m.content@.len() - i,
    {
        let ghost before = list_view(blocks@);
        let ghost b0 = blocks@;
        let v = block_value(&m.content[i], masks);
        blocks.push(v);
        proof {
            lemma_list_view(b0);
            lemma_list_view(blocks@);
            assert(m@.content[i as int] == m.content@[i as int]@);
        }
        assert(list_view(blocks@) =~= before.push(goal[i as int]));
        assert(goal.take(i + 1) =~= before.push(goal[i as int]));
        i += 1;
    }
    assert(goal.take(m.content@.len() as int) =~= goal);
    let mut fields: Vec<(String, Json)> = Vec::new();
    put(&mut fields, "role", json_str(m.role.as_str()));
    put(&mut fields, "content", Json::Array(blocks));
    assert(fields_view(fields@) =~= seq![
        ("role"@, JsonV::Text(role_word(m@.role))),
        ("content"@, JsonV::Array(goal)),
    ]);
    object(fields)
}

/// A request as it counts: ids left out, changing texts masked.
pub fn canonical_value(messages: &[Message], masks: &MaskRules) -> (r: Json)
    ensures
        r@ == canonical(messages_view(messages@), masks@),
{
    let ghost all = messages_view(messages@);
    let ghost goal = all.map_values(|m: MessageV| canonical_message(m, masks@));
    let mut out: Vec<Json> = Vec::new();
    assert(list_view(out@) =~= goal.take(0));
    let mut i: usize = 0;
    while i < messages.len()
        invariant
            i <= messages@.len(),
            all == messages_view(messages@),
            goal == all.map_values(|m: MessageV| canonical_message(m, masks@)),
            list_view(out@) == goal.take(i as int),
        decreases messages@.len() - i,
    {
        let ghost before = list_view(out@);
        let ghost o0 = out@;
        let v = message_value(&messages[i], masks);
        out.push(v);
        proof {
            lemma_list_view(o0);
            lemma_list_view(out@);
        }
        assert(list_view(out@) =~= before.push(goal[i as int]));
        assert(goal.take(i + 1) =~= before.push(goal[i as int]));
        i += 1;
    }
    assert(goal.take(messages@.len() as int) =~= goal);
    Json::Array(out)
}

// ---- fingerprint ----

/// The SHA-256 digest of a text's UTF-8 bytes.
pub uninterp spec fn sha256(text: Seq<char>) -> Seq<u8>;

/// `sha2::Sha256::digest` of the text's bytes: 32 bytes that depend on the text alone.
#[verifier::external_body]
fn digest(text: &str) -> (r: Vec<u8>)
    ensures
        r@ == sha256(text@),
        r@.len() == 32,
{
    <sha2::Sha256 as sha2::Digest>::digest(text.as_bytes()).to_vec()
}

/// The fingerprint of a request.
#[derive(Debug, PartialEq, Eq)]
pub struct Fingerprint(String);

impl View for Fingerprint {
    type V = Seq<char>;

    closed spec fn view(&self) -> Seq<char> {
        self.0@
    }
}

impl Fingerprint {
    pub fn as_str(&self) -> (r: &str)
        ensures
            r@ == self@,
    {
        self.0.as_str()
    }

    pub fn to_string(&self) -> (r: String)
        ensures
            r@ == self@,
    {
        self.0.clone()
    }
}

/// The fingerprint of a request.
pub open spec fn fingerprint_text(
    messages: Seq<MessageV>,
    rules: Seq<(Seq<char>, Seq<char>)>,
) -> Seq<char> {
    "sha256:"@ + hex_bytes(sha256(json_compact(canonical(messages, rules))))
}

/// The fingerprint of a request: `sha256:` and the digest of what counts of it, in hexadecimal.
pub fn fingerprint(messages: &[Message], masks: &MaskRules) -> (r: Fingerprint)
    ensures
        r@ == fingerprint_text(messages_view(messages@), masks@),
        r@.len() == "sha256:"@.len() + 64,
{
    let text = json_text(&canonical_value(messages, masks));
    let bytes = digest(text.as_str());
    proof {
        lemma_hex_len(bytes@);
    }
    Fingerprint(concat2("sha256:", hex_encode(bytes.as_slice()).as_str()))
}

proof fn lemma_hex_len(bytes: Seq<u8>)
    ensures
        hex_bytes(bytes).len() == 2 * bytes.len(),
    decreases bytes.len(),
{
    reveal_with_fuel(crate::text::hex_digits, 3);
    if bytes.len() > 0 {
        lemma_hex_len(bytes.drop_last());
    }
}

// ---- laws ----

/// Two blocks differ at most in their ids.
pub open spec fn same_but_ids(a: BlockV, b: BlockV) -> bool {
    match (a, b) {
        (BlockV::Text { text: s }, BlockV::Text { text: t }) => s == t,
        (
            BlockV::ToolCall { id: _, name: m, input: i },
            BlockV::ToolCall { id: _, name: n, input: j },
        ) => m == n && i == j,
        (
            BlockV::ToolOutput { call_id: _, content: s },
            BlockV::ToolOutput { call_id: _, content: t },
        ) => s == t,
        _ => false,
    }
}

/// Two messages differ at most in the ids of their blocks.
pub open spec fn message_same_but_ids(a: MessageV, b: MessageV) -> bool {
    a.role == b.role && a.content.len() == b.content.len() && forall|i: int|
        0 <= i < a.content.len() ==> same_but_ids(#[trigger] a.content[i], b.content[i])
}

/// The ids that a model makes up do not count: two requests that differ in nothing else have the same
/// fingerprint.
pub proof fn lemma_ids_do_not_count(
    a: Seq<MessageV>,
    b: Seq<MessageV>,
    rules: Seq<(Seq<char>, Seq<char>)>,
)
    requires
        a.len() == b.len(),
        forall|i: int| 0 <= i < a.len() ==> message_same_but_ids(#[trigger] a[i], b[i]),
    ensures
        canonical(a, rules) == canonical(b, rules),
        fingerprint_text(a, rules) == fingerprint_text(b, rules),
{
    let ca = a.map_values(|m: MessageV| canonical_message(m, rules));
    let cb = b.map_values(|m: MessageV| canonical_message(m, rules));
    assert forall|i: int| 0 <= i < a.len() implies ca[i] == cb[i] by {
        assert(message_same_but_ids(a[i], b[i]));
        let x = a[i].content.map_values(|k: BlockV| canonical_block(k, rules));
        let y = b[i].content.map_values(|k: BlockV| canonical_block(k, rules));
        assert forall|k: int| 0 <= k < x.len() implies x[k] == y[k] by {
            assert(same_but_ids(a[i].content[k], b[i].content[k]));
        }
        assert(x =~= y);
    }
    assert(ca =~= cb);
}

/// What the masks make equal has the same fingerprint: a user text counts by its masked form alone.
pub proof fn lemma_masked_texts_count_alike(
    a: Seq<char>,
    b: Seq<char>,
    rules_a: Seq<(Seq<char>, Seq<char>)>,
    rules_b: Seq<(Seq<char>, Seq<char>)>,
)
    requires
        masked(rules_a, a) == masked(rules_b, b),
    ensures
        fingerprint_text(seq![crate::domain::message::user_text_v(a)], rules_a)
            == fingerprint_text(seq![crate::domain::message::user_text_v(b)], rules_b),
{
    let ma = crate::domain::message::user_text_v(a);
    let mb = crate::domain::message::user_text_v(b);
    assert(ma.content.map_values(|k: BlockV| canonical_block(k, rules_a))
        =~= mb.content.map_values(|k: BlockV| canonical_block(k, rules_b)));
    assert(seq![ma].map_values(|m: MessageV| canonical_message(m, rules_a))
        =~= seq![mb].map_values(|m: MessageV| canonical_message(m, rules_b)));
}

} // verus!

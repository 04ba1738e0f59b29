//! Cassettes: model calls that were recorded, and are played back in the order of the recording. A
//! request that is not the recorded one is an error that says what to do, never a silent success.

use vstd::prelude::*;

use crate::domain::message::{
    blocks_view, dup_blocks, dup_messages, messages_view, ContentBlock, Message, MessageV,
    MessagesResponse, ResponseV, Usage,
};
use crate::error::LlmError;
use crate::eval::fingerprint::{
    canonical, canonical_value, fingerprint, fingerprint_text, MaskRules,
};
use crate::json::{json_compact, json_text};
use crate::providers::{CallResult, CallV, ErrorV};
use crate::text::{
    chars_of, concat2, concat3, decimal, decimal_u64, decimal_usize, is_blank, blank, lines, owned,
    split_lines, str_ends_with, str_eq, substring, texts, trim, trimmed,
};

verus! {

broadcast use vstd::string::group_string_axioms;

// ---- records ----

/// The token usage in a cassette.
#[derive(Clone, Copy, Debug, PartialEq, Eq, Structural)]
pub struct RecordedUsage {
    pub input_tokens: u64,
    pub output_tokens: u64,
}

/// The response in a cassette.
#[derive(Debug)]
pub struct RecordedResponse {
    pub content: Vec<ContentBlock>,
    pub finish_reason: String,
    pub usage: Option<RecordedUsage>,
}

/// The usage as it is recorded.
pub open spec fn recorded_usage(u: Option<Usage>) -> Option<RecordedUsage> {
    match u {
        Some(u) => Some(
            RecordedUsage { input_tokens: u.input_tokens, output_tokens: u.output_tokens },
        ),
        None => None,
    }
}

/// The usage as it is played back.
pub open spec fn played_usage(u: Option<RecordedUsage>) -> Option<Usage> {
    match u {
        Some(u) => Some(Usage { input_tokens: u.input_tokens, output_tokens: u.output_tokens }),
        None => None,
    }
}

/// A recorded response stands for this one.
pub open spec fn played(r: RecordedResponse) -> ResponseV {
    ResponseV {
        content: blocks_view(r.content@),
        finish_reason: r.finish_reason@,
        usage: played_usage(r.usage),
    }
}

impl RecordedResponse {
    /// The response as it is recorded.
    pub fn from_response(m: &MessagesResponse) -> (r: Self)
        ensures
            blocks_view(r.content@) == m@.content,
            r.finish_reason@ == m@.finish_reason,
            r.usage == recorded_usage(m@.usage),
            played(r) == m@,
    {
        let usage = match m.usage {
            Some(u) => Some(
                RecordedUsage { input_tokens: u.input_tokens, output_tokens: u.output_tokens },
            ),
            None => None,
        };
        RecordedResponse {
            content: dup_blocks(m.content.as_slice()),
            finish_reason: m.finish_reason.clone(),
            usage,
        }
    }

    /// The response as it is played back.
    pub fn to_response(&self) -> (r: MessagesResponse)
        ensures
            r@ == played(*self),
    {
        let usage = match self.usage {
            Some(u) => Some(
                Usage { input_tokens: u.input_tokens, output_tokens: u.output_tokens },
            ),
            None => None,
        };
        MessagesResponse {
            content: dup_blocks(self.content.as_slice()),
            finish_reason: self.finish_reason.clone(),
            usage,
        }
    }
}

/// A recorded call.
#[derive(Debug)]
pub struct CassetteEntry {
    pub fingerprint: String,
    pub request: Vec<Message>,
    pub response: RecordedResponse,
    pub model: String,
    pub recorded_at: String,
}

/// The mathematical value of a recorded call.
#[verifier::ext_equal]
pub struct EntryV {
    pub fingerprint: Seq<char>,
    pub request: Seq<MessageV>,
    pub response: ResponseV,
    pub model: Seq<char>,
    pub recorded_at: Seq<char>,
}

impl View for CassetteEntry {
    type V = EntryV;

    open spec fn view(&self) -> EntryV {
        EntryV {
            fingerprint: self.fingerprint@,
            request: messages_view(self.request@),
            response: played(self.response),
            model: self.model@,
            recorded_at: self.recorded_at@,
        }
    }
}

pub open spec fn entries_view(s: Seq<CassetteEntry>) -> Seq<EntryV> {
    s.map_values(|e: CassetteEntry| e@)
}

/// The call as it is recorded.
pub fn recorded_entry(
    messages: &[Message],
    response: &MessagesResponse,
    masks: &MaskRules,
    model: &str,
    recorded_at: &str,
) -> (r: CassetteEntry)
    ensures
        r@ == (EntryV {
            fingerprint: fingerprint_text(messages_view(messages@), masks@),
            request: messages_view(messages@),
            response: response@,
            model: model@,
            recorded_at: recorded_at@,
        }),
{
    CassetteEntry {
        fingerprint: fingerprint(messages, masks).to_string(),
        request: dup_messages(messages),
        response: RecordedResponse::from_response(response),
        model: owned(model),
        recorded_at: owned(recorded_at),
    }
}

/// The lines of a cassette that hold an entry, each with its number, from 1 on.
pub open spec fn entry_lines(ls: Seq<Seq<char>>) -> Seq<(nat, Seq<char>)>
    decreases ls.len(),
{
    if ls.len() == 0 {
        Seq::empty()
    } else {
        let rest = entry_lines(ls.drop_last());
        if blank(ls.last()) {
            rest
        } else {
            rest.push((ls.len(), trim(ls.last())))
        }
    }
}

/// The numbers and texts of lines.
pub open spec fn numbered_view(s: Seq<(usize, String)>) -> Seq<(nat, Seq<char>)> {
    s.map_values(|l: (usize, String)| (l.0 as nat, l.1@))
}

/// The lines of a cassette that hold an entry, each with its number, from 1 on.
pub fn load_lines(text: &str) -> (r: Vec<(usize, String)>)
    ensures
        numbered_view(r@) == entry_lines(lines(text@)),
{
    let ls = split_lines(text);
    let ghost all = texts(ls@);
    let mut out: Vec<(usize, String)> = Vec::new();
    assert(numbered_view(out@) =~= entry_lines(all.take(0)));
    let n: usize = ls.len();
    let mut i: usize = 0;
    while i < n
        invariant
            i <= n,
            n == ls@.len(),
            all == texts(ls@),
            numbered_view(out@) == entry_lines(all.take(i as int)),
        decreases n - i,
    {
        let ghost before = numbered_view(out@);
        assert(all.take(i + 1).drop_last() =~= all.take(i as int));
        assert(all.take(i + 1).last() == ls@[i as int]@);
        if !is_blank(ls[i].as_str()) {
            let line = trimmed(ls[i].as_str());
            out.push((i + 1, line));
            assert(numbered_view(out@) =~= before.push(((i + 1) as nat, line@)));
        }
        i += 1;
    }
    assert(all.take(n as int) =~= all);
    out
}

/// What is said of a line that cannot be read.
pub fn line_error(path: &str, line: usize, e: &str) -> (r: String)
    ensures
        r@ == "cassette "@ + path@ + " line "@ + decimal(line as nat) + ": "@ + e@,
{
    let head = concat3("cassette ", path, " line ");
    concat2(concat3(head.as_str(), decimal_usize(line).as_str(), ": ").as_str(), e)
}

// ---- drift ----

/// The first place at which the texts differ, or the end of the shorter one.
pub open spec fn diff_place(a: Seq<char>, b: Seq<char>) -> nat
    decreases a.len(),
{
    if a.len() == 0 || b.len() == 0 || a[0] != b[0] {
        0
    } else {
        1 + diff_place(a.skip(1), b.skip(1))
    }
}

/// The text around the place: from 40 characters before it, 80 characters.
pub open spec fn around(s: Seq<char>, place: nat) -> Seq<char> {
    let start = if place > 40 {
        place - 40
    } else {
        0
    };
    let from = if start < s.len() {
        start
    } else {
        s.len() as int
    };
    let to = if from + 80 < s.len() {
        from + 80
    } else {
        s.len() as int
    };
    s.subrange(from, to)
}

fn find_diff(a: &[char], b: &[char]) -> (r: usize)
    ensures
        r == diff_place(a@, b@),
{
    assert(a@.skip(0) =~= a@);
    assert(b@.skip(0) =~= b@);
    let mut i: usize = 0;
    while i < a.len() && i < b.len() && a[i] == b[i]
        invariant
            i <= a@.len(),
            i <= b@.len(),
            diff_place(a@, b@) == i + diff_place(a@.skip(i as int), b@.skip(i as int)),
        decreases a@.len() - i,
    {
        assert(a@.skip(i as int).skip(1) =~= a@.skip(i + 1));
        assert(b@.skip(i as int).skip(1) =~= b@.skip(i + 1));
        i += 1;
    }
    i
}

fn cut_around(cs: &[char], place: usize) -> (r: String)
    ensures
        r@ == around(cs@, place as nat),
{
    let n: usize = cs.len();
    let start: usize = if place > 40 {
        place - 40
    } else {
        0
    };
    let from: usize = if start < n {
        start
    } else {
        n
    };
    let to: usize = if n - from > 80 {
        from + 80
    } else {
        n
    };
    substring(cs, from, to)
}

/// What is shown of two texts around the first place at which they differ.
pub open spec fn diff_text(recorded: Seq<char>, actual: Seq<char>) -> Seq<char> {
    let place = diff_place(recorded, actual);
    "  drift near char "@ + decimal(place) + ":\n    recorded: ..."@ + around(recorded, place)
        + "...\n    actual:   ..."@ + around(actual, place) + "..."@
}

/// What is shown of two texts around the first place at which they differ.
pub fn snippet_diff(recorded: &str, actual: &str) -> (r: String)
    ensures
        r@ == diff_text(recorded@, actual@),
{
    let a = chars_of(recorded);
    let b = chars_of(actual);
    let place: usize = find_diff(a.as_slice(), b.as_slice());
    let head = concat3(
        "  drift near char ",
        decimal_usize(place).as_str(),
        ":\n    recorded: ...",
    );
    let first = concat3(
        head.as_str(),
        cut_around(a.as_slice(), place).as_str(),
        "...\n    actual:   ...",
    );
    concat3(first.as_str(), cut_around(b.as_slice(), place).as_str(), "...")
}

/// What is said of a request that is not the recorded one.
pub open spec fn drift_text(
    n: nat,
    path: Seq<char>,
    entry: EntryV,
    messages: Seq<MessageV>,
    rules: Seq<(Seq<char>, Seq<char>)>,
) -> Seq<char> {
    let rec = json_compact(canonical(entry.request, rules));
    let act = json_compact(canonical(messages, rules));
    let diff = if rec == act {
        Seq::empty()
    } else {
        diff_text(rec, act)
    };
    "cassette drift at call #"@ + decimal(n) + " of "@ + path + "\n  expected fingerprint: "@
        + entry.fingerprint + "\n  actual   fingerprint: "@ + fingerprint_text(messages, rules)
        + "\n"@ + diff
        + "\n→ prompt semantics changed; re-record with BYTEMAKER_CASSETTE="@ + path + "+record"@
}

fn drift_message(
    n: u64,
    path: &str,
    entry: &CassetteEntry,
    actual: &str,
    messages: &[Message],
    masks: &MaskRules,
) -> (r: String)
    requires
        actual@ == fingerprint_text(messages_view(messages@), masks@),
    ensures
        r@ == drift_text(n as nat, path@, entry@, messages_view(messages@), masks@),
{
    let rec = json_text(&canonical_value(entry.request.as_slice(), masks));
    let act = json_text(&canonical_value(messages, masks));
    let diff = if str_eq(rec.as_str(), act.as_str()) {
        String::new()
    } else {
        snippet_diff(rec.as_str(), act.as_str())
    };
    let a = concat3("cassette drift at call #", decimal_u64(n).as_str(), " of ");
    let b = concat3(a.as_str(), path, "\n  expected fingerprint: ");
    let c = concat3(b.as_str(), entry.fingerprint.as_str(), "\n  actual   fingerprint: ");
    let d = concat3(c.as_str(), actual, "\n");
    let e = concat3(
        d.as_str(),
        diff.as_str(),
        "\n→ prompt semantics changed; re-record with BYTEMAKER_CASSETTE=",
    );
    concat3(e.as_str(), path, "+record")
}

// ---- provider ----

/// Whether calls are recorded or played back.
#[derive(Debug)]
pub enum CassetteMode {
    /// Calls go to another provider, and what succeeds is recorded.
    Record,
    /// Calls are answered from the recording.
    Replay { entries: Vec<CassetteEntry>, path: String },
}

/// The recording that is played back, where one is.
pub open spec fn mode_view(m: CassetteMode) -> Option<(Seq<EntryV>, Seq<char>)> {
    match m {
        CassetteMode::Record => None,
        CassetteMode::Replay { entries, path } => Some((entries_view(entries@), path@)),
    }
}

/// The state of a cassette.
#[verifier::ext_equal]
pub struct CassetteV {
    /// The recording and its path, where one is played back.
    pub tape: Option<(Seq<EntryV>, Seq<char>)>,
    pub masks: Seq<(Seq<char>, Seq<char>)>,
    pub model: Seq<char>,
    pub calls: nat,
}

/// Records model calls, or plays them back.
#[derive(Debug)]
pub struct CassetteProvider {
    mode: CassetteMode,
    masks: MaskRules,
    model: String,
    calls: u64,
}

impl View for CassetteProvider {
    type V = CassetteV;

    closed spec fn view(&self) -> CassetteV {
        CassetteV {
            tape: mode_view(self.mode),
            masks: self.masks@,
            model: self.model@,
            calls: self.calls as nat,
        }
    }
}

/// What a call of a cassette gives; nothing where the call is to be made and recorded.
pub open spec fn cassette_result(c: CassetteV, messages: Seq<MessageV>) -> Option<CallV> {
    match c.tape {
        None => None,
        Some((entries, path)) => if c.calls >= entries.len() {
            Some(
                CallV::Failure(
                    ErrorV::Other(
                        "cassette exhausted at call #"@ + decimal(c.calls + 1) + " of "@ + path
                            + ": the run made more LLM calls than were recorded → re-record with BYTEMAKER_CASSETTE="@
                            + path + "+record"@,
                    ),
                ),
            )
        } else {
            let entry = entries[c.calls as int];
            if fingerprint_text(messages, c.masks) == entry.fingerprint {
                Some(CallV::Success(entry.response))
            } else {
                Some(
                    CallV::Failure(
                        ErrorV::Other(
                            drift_text(c.calls + 1, path, entry, messages, c.masks),
                        ),
                    ),
                )
            }
        },
    }
}

impl CassetteProvider {
    /// Records calls.
    pub fn record(masks: MaskRules, model: &str) -> (r: Self)
        ensures
            r@ == (CassetteV { tape: None, masks: masks@, model: model@, calls: 0 }),
    {
        CassetteProvider { mode: CassetteMode::Record, masks, model: owned(model), calls: 0 }
    }

    /// Plays back the recorded calls of the path.
    pub fn replay(entries: Vec<CassetteEntry>, path: &str, masks: MaskRules) -> (r: Self)
        ensures
            r@ == (CassetteV {
                tape: Some((entries_view(entries@), path@)),
                masks: masks@,
                model: ""@,
                calls: 0,
            }),
    {
        CassetteProvider {
            mode: CassetteMode::Replay { entries, path: owned(path) },
            masks,
            model: owned(""),
            calls: 0,
        }
    }

    /// Uses other masks from now on.
    pub fn set_masks(&mut self, masks: MaskRules)
        ensures
            final(self)@ == (CassetteV { masks: masks@, ..old(self)@ }),
    {
        self.masks = masks;
    }

    /// How many calls there were.
    pub fn call_count(&self) -> (r: u64)
        ensures
            r == self@.calls,
    {
        self.calls
    }

    /// A call: its result where it is played back, nothing where it is to be made and recorded.
    pub fn stream_messages(&mut self, messages: &[Message]) -> (r: Option<CallResult>)
        requires
            old(self)@.calls < u64::MAX,
        ensures
            match r {
                Some(c) => cassette_result(old(self)@, messages_view(messages@)) == Some(c@),
                None => cassette_result(old(self)@, messages_view(messages@)) is None,
            },
            final(self)@ == (CassetteV { calls: old(self)@.calls + 1, ..old(self)@ }),
    {
        let n: u64 = self.calls;
        self.calls = n + 1;
        match &self.mode {
            CassetteMode::Record => None,
            CassetteMode::Replay { entries, path } => {
                let k: usize = entries.len();
                if n >= k as u64 {
                    let head = concat3(
                        "cassette exhausted at call #",
                        decimal_u64(n + 1).as_str(),
                        " of ",
                    );
                    let told = concat3(
                        head.as_str(),
                        path.as_str(),
                        ": the run made more LLM calls than were recorded → re-record with BYTEMAKER_CASSETTE=",
                    );
                    let text = concat3(told.as_str(), path.as_str(), "+record");
                    return Some(CallResult::Failure(LlmError::Other(text)));
                }
                let entry = &entries[n as usize];
                let actual = fingerprint(messages, &self.masks).to_string();
                if !str_eq(actual.as_str(), entry.fingerprint.as_str()) {
                    let text = drift_message(
                        n + 1,
                        path.as_str(),
                        entry,
                        actual.as_str(),
                        messages,
                        &self.masks,
                    );
                    return Some(CallResult::Failure(LlmError::Other(text)));
                }
                Some(CallResult::Success(entry.response.to_response()))
            },
        }
    }

    /// The call that was made, as it is recorded.
    pub fn entry(&self, messages: &[Message], response: &MessagesResponse, recorded_at: &str) -> (r:
        CassetteEntry)
        ensures
            r@ == (EntryV {
                fingerprint: fingerprint_text(messages_view(messages@), self@.masks),
                request: messages_view(messages@),
                response: response@,
                model: self@.model,
                recorded_at: recorded_at@,
            }),
    {
        recorded_entry(messages, response, &self.masks, self.model.as_str(), recorded_at)
    }

    /// The result of a call that could not be recorded.
    pub fn write_failed(e: &str) -> (r: CallResult)
        ensures
            r@ == CallV::Failure(ErrorV::Other("cassette write failed: "@ + e@)),
    {
        CallResult::Failure(LlmError::Other(concat2("cassette write failed: ", e)))
    }
}

// ---- environment ----

/// What the environment asks for.
#[derive(Debug)]
pub enum CassetteSpec {
    Replay(String),
    Record(String),
}

/// What the value of `BYTEMAKER_CASSETTE` asks for: `path` is played back where it exists, and
/// `path+record` is recorded.
pub open spec fn env_request(value: Option<Seq<char>>, exists_on_disk: bool) -> Result<
    Option<(bool, Seq<char>)>,
    Seq<char>,
> {
    match value {
        None => Ok(None),
        Some(raw) => {
            let v = trim(raw);
            if v.len() == 0 {
                Ok(None)
            } else if "+record"@.is_suffix_of(v) {
                Ok(Some((true, trim(v.take(v.len() - "+record"@.len())))))
            } else if exists_on_disk {
                Ok(Some((false, v)))
            } else {
                Err(
                    "BYTEMAKER_CASSETTE="@ + v
                        + " does not exist; to record, set BYTEMAKER_CASSETTE="@ + v + "+record"@,
                )
            }
        },
    }
}

/// The view of what the environment asks for.
pub open spec fn spec_view(r: Result<Option<CassetteSpec>, String>) -> Result<
    Option<(bool, Seq<char>)>,
    Seq<char>,
> {
    match r {
        Ok(None) => Ok(None),
        Ok(Some(CassetteSpec::Record(p))) => Ok(Some((true, p@))),
        Ok(Some(CassetteSpec::Replay(p))) => Ok(Some((false, p@))),
        Err(e) => Err(e@),
    }
}

/// What the value of `BYTEMAKER_CASSETTE` asks for; `exists_on_disk` says whether the trimmed value is
/// the path of something that exists.
pub fn spec_from_env(value: Option<&str>, exists_on_disk: bool) -> (r: Result<
    Option<CassetteSpec>,
    String,
>)
    ensures
        spec_view(r) == env_request(
            match value {
                Some(v) => Some(v@),
                None => None,
            },
            exists_on_disk,
        ),
{
    let v = match value {
        None => {
            return Ok(None);
        },
        Some(raw) => trimmed(raw),
    };
    let cs = chars_of(v.as_str());
    if cs.len() == 0 {
        return Ok(None);
    }
    if str_ends_with(v.as_str(), "+record") {
        proof {
            reveal_strlit("+record");
        }
        let n: usize = cs.len();
        let path = substring(cs.as_slice(), 0, n - 7);
        assert(path@ =~= v@.take(v@.len() - 7));
        return Ok(Some(CassetteSpec::Record(trimmed(path.as_str()))));
    }
    if exists_on_disk {
        Ok(Some(CassetteSpec::Replay(v)))
    } else {
        let head = concat3(
            "BYTEMAKER_CASSETTE=",
            v.as_str(),
            " does not exist; to record, set BYTEMAKER_CASSETTE=",
        );
        Err(concat3(head.as_str(), v.as_str(), "+record"))
    }
}

// ---- laws ----

/// What was recorded is played back: a recorded call, asked for again at its turn with the same
/// messages and masks, gives the response that was recorded, whatever model it came from and when.
pub proof fn lemma_recorded_is_played(
    c: CassetteV,
    messages: Seq<MessageV>,
    response: ResponseV,
    model: Seq<char>,
    recorded_at: Seq<char>,
)
    requires
        c.tape matches Some((entries, _)) && c.calls < entries.len() && entries[c.calls as int] == (
        EntryV {
            fingerprint: fingerprint_text(messages, c.masks),
            request: messages,
            response,
            model,
            recorded_at,
        }),
    ensures
        cassette_result(c, messages) == Some(CallV::Success(response)),
{
}

/// No silent success: where the request is not the recorded one, or nothing is left of the
/// recording, a call that is played back fails.
pub proof fn lemma_drift_fails(c: CassetteV, messages: Seq<MessageV>)
    requires
        c.tape matches Some((entries, _)) && (c.calls >= entries.len() || entries[c.calls as int].fingerprint
            != fingerprint_text(messages, c.masks)),
    ensures
        cassette_result(c, messages) matches Some(CallV::Failure(_)),
{
}

/// Nothing before the place of a difference differs, and the place is the end of a text or a
/// difference.
pub proof fn lemma_diff_place(a: Seq<char>, b: Seq<char>)
    ensures
        diff_place(a, b) <= a.len(),
        diff_place(a, b) <= b.len(),
        a.take(diff_place(a, b) as int) == b.take(diff_place(a, b) as int),
        diff_place(a, b) < a.len() && diff_place(a, b) < b.len() ==> a[diff_place(a, b) as int]
            != b[diff_place(a, b) as int],
    decreases a.len(),
{
    if a.len() > 0 && b.len() > 0 && a[0] == b[0] {
        lemma_diff_place(a.skip(1), b.skip(1));
        let k = diff_place(a.skip(1), b.skip(1)) as int;
        assert forall|i: int| 0 <= i < k + 1 implies a[i] == b[i] by {
            if i > 0 {
                assert(a.skip(1).take(k)[i - 1] == b.skip(1).take(k)[i - 1]);
            }
        }
        assert(a.take(k + 1) =~= b.take(k + 1));
    } else {
        assert(a.take(0) =~= b.take(0));
    }
}

} // verus!

//! The judge: a model call that finds whether an answer meets a rubric.

use vstd::prelude::*;

use crate::domain::message::{messages_view, user_text_v, Message};
use crate::error::{llm_error_text, LlmError};
use crate::text::{
    chars_of, concat2, concat3, first_chars, owned, str_starts_with, substring, take_chars, trim,
    trimmed,
};

verus! {

broadcast use vstd::string::group_string_axioms;

/// What the judge found. The score is kept as it is shown.
#[derive(Debug)]
pub struct JudgeVerdict {
    pub pass: bool,
    pub score: String,
    pub rationale: String,
}

/// What the judge found, with texts as sequences of characters.
#[verifier::ext_equal]
pub struct VerdictV {
    pub pass: bool,
    pub score: Seq<char>,
    pub rationale: Seq<char>,
}

impl View for JudgeVerdict {
    type V = VerdictV;

    open spec fn view(&self) -> VerdictV {
        VerdictV { pass: self.pass, score: self.score@, rationale: self.rationale@ }
    }
}

impl JudgeVerdict {
    /// A copy of the verdict.
    pub fn dup(&self) -> (r: Self)
        ensures
            r@ == self@,
    {
        JudgeVerdict {
            pass: self.pass,
            score: self.score.clone(),
            rationale: self.rationale.clone(),
        }
    }
}

/// What is shown of a score of nought.
pub const NO_SCORE: &'static str = "0.00";

/// What the judge is asked.
pub open spec fn judge_question(
    task_prompt: Seq<char>,
    rubric: Seq<char>,
    answer: Seq<char>,
) -> Seq<char> {
    "You are an impartial judge evaluating an AI agent's final answer.\n\nTask given to the agent:\n"@
        + task_prompt + "\n\nGrading rubric:\n"@ + rubric + "\n\nAgent's final answer:\n"@ + answer
        + "\n\nRespond with ONLY a JSON object, no other text:\n{\"pass\": <true|false>, \"score\": <0.0-1.0>, \"rationale\": \"<one sentence>\"}"@
}

/// The message to the judge.
pub fn judge_messages(task_prompt: &str, rubric: &str, answer: &str) -> (r: Vec<Message>)
    ensures
        messages_view(r@) == seq![user_text_v(judge_question(task_prompt@, rubric@, answer@))],
{
    let a = concat3(
        "You are an impartial judge evaluating an AI agent's final answer.\n\nTask given to the agent:\n",
        task_prompt,
        "\n\nGrading rubric:\n",
    );
    let b = concat3(a.as_str(), rubric, "\n\nAgent's final answer:\n");
    let text = concat3(
        b.as_str(),
        answer,
        "\n\nRespond with ONLY a JSON object, no other text:\n{\"pass\": <true|false>, \"score\": <0.0-1.0>, \"rationale\": \"<one sentence>\"}",
    );
    let m = Message::user_text(text.as_str());
    let mut out: Vec<Message> = Vec::new();
    out.push(m);
    assert(messages_view(out@) =~= seq![m@]);
    out
}

/// The text without the mark at its start, as often as it stands there.
pub open spec fn without_start(s: Seq<char>, mark: Seq<char>) -> Seq<char>
    decreases s.len(),
{
    if mark.len() > 0 && mark.is_prefix_of(s) {
        without_start(s.skip(mark.len() as int), mark)
    } else {
        s
    }
}

/// The text without the mark at its end, as often as it stands there.
pub open spec fn without_end(s: Seq<char>, mark: Seq<char>) -> Seq<char>
    decreases s.len(),
{
    if mark.len() > 0 && mark.is_suffix_of(s) {
        without_end(s.take(s.len() - mark.len()), mark)
    } else {
        s
    }
}

fn drop_start(s: &str, mark: &str) -> (r: String)
    ensures
        r@ == without_start(s@, mark@),
{
    let m: usize = crate::text::char_count(mark);
    let mut rest = owned(s);
    while m > 0 && str_starts_with(rest.as_str(), mark)
        invariant
            m == mark@.len(),
            without_start(s@, mark@) == without_start(rest@, mark@),
        decreases rest@.len(),
    {
        let cs = chars_of(rest.as_str());
        let ghost before = rest@;
        rest = substring(cs.as_slice(), m, cs.len());
        assert(rest@ =~= before.skip(m as int));
    }
    rest
}

fn drop_end(s: &str, mark: &str) -> (r: String)
    ensures
        r@ == without_end(s@, mark@),
{
    let m: usize = crate::text::char_count(mark);
    let mut rest = owned(s);
    while m > 0 && crate::text::str_ends_with(rest.as_str(), mark)
        invariant
            m == mark@.len(),
            without_end(s@, mark@) == without_end(rest@, mark@),
        decreases rest@.len(),
    {
        let cs = chars_of(rest.as_str());
        let ghost before = rest@;
        let n: usize = cs.len();
        rest = substring(cs.as_slice(), 0, n - m);
        assert(rest@ =~= before.take(n - m));
    }
    rest
}

/// The answer without the fences around it.
pub open spec fn unfenced(raw: Seq<char>) -> Seq<char> {
    without_end(without_start(without_start(trim(raw), "```json"@), "```"@), "```"@)
}

/// The first place of the character.
pub open spec fn first_of(s: Seq<char>, c: char) -> Option<int>
    decreases s.len(),
{
    if s.len() == 0 {
        None
    } else if s[0] == c {
        Some(0)
    } else {
        match first_of(s.skip(1), c) {
            Some(k) => Some(k + 1),
            None => None,
        }
    }
}

/// The last place of the character.
pub open spec fn last_of(s: Seq<char>, c: char) -> Option<int>
    decreases s.len(),
{
    if s.len() == 0 {
        None
    } else if s.last() == c {
        Some(s.len() - 1)
    } else {
        last_of(s.drop_last(), c)
    }
}

proof fn lemma_first_of(s: Seq<char>, c: char, k: int)
    requires
        0 <= k < s.len(),
        s[k] == c,
        forall|i: int| 0 <= i < k ==> s[i] != c,
    ensures
        first_of(s, c) == Some(k),
    decreases k,
{
    if k > 0 {
        assert forall|i: int| 0 <= i < k - 1 implies s.skip(1)[i] != c by {
            assert(s[i + 1] != c);
        }
        lemma_first_of(s.skip(1), c, k - 1);
    }
}

proof fn lemma_first_of_none(s: Seq<char>, c: char)
    requires
        forall|i: int| 0 <= i < s.len() ==> s[i] != c,
    ensures
        first_of(s, c) is None,
        last_of(s, c) is None,
    decreases s.len(),
{
    if s.len() > 0 {
        assert forall|i: int| 0 <= i < s.skip(1).len() implies s.skip(1)[i] != c by {
            assert(s[i + 1] != c);
        }
        assert forall|i: int| 0 <= i < s.drop_last().len() implies s.drop_last()[i] != c by {
            assert(s[i] != c);
        }
        lemma_first_of_none(s.skip(1), c);
        lemma_first_of_none(s.drop_last(), c);
    }
}

proof fn lemma_last_of(s: Seq<char>, c: char, k: int)
    requires
        0 <= k < s.len(),
        s[k] == c,
        forall|i: int| k < i < s.len() ==> s[i] != c,
    ensures
        last_of(s, c) == Some(k),
    decreases s.len(),
{
    if k < s.len() - 1 {
        assert(s[s.len() - 1] != c);
        assert forall|i: int| k < i < s.drop_last().len() implies s.drop_last()[i] != c by {
            assert(s[i] != c);
        }
        lemma_last_of(s.drop_last(), c, k);
    }
}

/// The part of an answer that is to be read: from the first opening brace to the last closing one.
pub open spec fn verdict_part(raw: Seq<char>) -> Option<Seq<char>> {
    let s = unfenced(raw);
    match (first_of(s, '{'), last_of(s, '}')) {
        (Some(a), Some(b)) => if b > a {
            Some(s.subrange(a, b + 1))
        } else {
            None
        },
        _ => None,
    }
}

fn find_first(cs: &[char], c: char) -> (r: Option<usize>)
    ensures
        match r {
            Some(k) => first_of(cs@, c) == Some(k as int) && k < cs@.len(),
            None => first_of(cs@, c) is None,
        },
{
    let mut i: usize = 0;
    while i < cs.len()
        invariant
            i <= cs@.len(),
            forall|k: int| 0 <= k < i ==> cs@[k] != c,
        decreases cs@.len() - i,
    {
        if cs[i] == c {
            proof {
                lemma_first_of(cs@, c, i as int);
            }
            return Some(i);
        }
        i += 1;
    }
    proof {
        lemma_first_of_none(cs@, c);
    }
    None
}

fn find_last(cs: &[char], c: char) -> (r: Option<usize>)
    ensures
        match r {
            Some(k) => last_of(cs@, c) == Some(k as int) && k < cs@.len(),
            None => last_of(cs@, c) is None,
        },
{
    let mut i: usize = cs.len();
    while i > 0
        invariant
            i <= cs@.len(),
            forall|k: int| i <= k < cs@.len() ==> cs@[k] != c,
        decreases i,
    {
        if cs[i - 1] == c {
            proof {
                lemma_last_of(cs@, c, i - 1);
            }
            return Some(i - 1);
        }
        i -= 1;
    }
    proof {
        lemma_first_of_none(cs@, c);
    }
    None
}

/// The part of an answer that is to be read: from the first opening brace to the last closing one.
pub fn verdict_slice(raw: &str) -> (r: Option<String>)
    ensures
        r.deep_view() == verdict_part(raw@),
{
    let a = drop_start(trimmed(raw).as_str(), "```json");
    let b = drop_start(a.as_str(), "```");
    let cleaned = drop_end(b.as_str(), "```");
    let cs = chars_of(cleaned.as_str());
    match (find_first(cs.as_slice(), '{'), find_last(cs.as_slice(), '}')) {
        (Some(s), Some(e)) => if e > s {
            Some(substring(cs.as_slice(), s, e + 1))
        } else {
            None
        },
        _ => None,
    }
}

/// The verdict of an answer that cannot be read.
pub open spec fn unreadable(raw: Seq<char>) -> VerdictV {
    VerdictV {
        pass: false,
        score: NO_SCORE@,
        rationale: "judge response was not valid JSON: "@ + first_chars(raw, 120),
    }
}

/// The verdict of an answer, where `parsed` is what its part gives, if it has one and it can be read.
pub fn parse_verdict(raw: &str, parsed: Option<JudgeVerdict>) -> (r: JudgeVerdict)
    ensures
        r@ == match parsed {
            Some(v) => if verdict_part(raw@) is Some {
                v@
            } else {
                unreadable(raw@)
            },
            None => unreadable(raw@),
        },
{
    if verdict_slice(raw).is_some() {
        match parsed {
            Some(v) => {
                return v;
            },
            None => {},
        }
    }
    JudgeVerdict {
        pass: false,
        score: owned(NO_SCORE),
        rationale: concat2(
            "judge response was not valid JSON: ",
            take_chars(raw, 120).as_str(),
        ),
    }
}

/// The verdict where the judge could not be asked.
pub fn judge_failed(e: &LlmError) -> (r: JudgeVerdict)
    ensures
        r@ == (VerdictV {
            pass: false,
            score: NO_SCORE@,
            rationale: "judge call failed: "@ + llm_error_text(*e),
        }),
{
    JudgeVerdict {
        pass: false,
        score: owned(NO_SCORE),
        rationale: concat2("judge call failed: ", e.to_string().as_str()),
    }
}

/// An answer without an object is never a pass, whatever is made of it.
pub proof fn lemma_no_object_no_pass(raw: Seq<char>)
    requires
        first_of(unfenced(raw), '{') is None || last_of(unfenced(raw), '}') is None,
    ensures
        verdict_part(raw) is None,
        !unreadable(raw).pass,
{
}

} // verus!

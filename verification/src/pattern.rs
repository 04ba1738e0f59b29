//! Regular expressions.

use vstd::prelude::*;

use crate::text::chars_of;

verus! {

broadcast use vstd::string::group_string_axioms;

/// Whether the `regex` crate finds the pattern in the text; `None` where it does not accept the
/// pattern.
pub uninterp spec fn regex_match(pattern: Seq<char>, text: Seq<char>) -> Option<bool>;

/// `regex::Regex::new` and `Regex::is_match`: whether the pattern is found in the text, and `None`
/// where the pattern is not accepted. The answer depends on the two texts alone.
#[verifier::external_body]
fn find_match(pattern: &str, text: &str) -> (r: Option<bool>)
    ensures
        r == regex_match(pattern@, text@),
{
    regex::Regex::new(pattern).ok().map(|re| re.is_match(text))
}

/// The pattern is one, and is found in the text.
pub open spec fn hits(pattern: Seq<char>, text: Seq<char>) -> bool {
    regex_match(pattern, text) == Some(true)
}

/// Whether the pattern is one, and is found in the text.
pub fn is_hit(pattern: &str, text: &str) -> (r: bool)
    ensures
        r == hits(pattern@, text@),
{
    match find_match(pattern, text) {
        Some(found) => found,
        None => false,
    }
}

/// The text with every match of the pattern replaced by the replacement as it stands, as the `regex`
/// crate does it; `None` where it does not accept the pattern.
pub uninterp spec fn regex_replaced(
    pattern: Seq<char>,
    text: Seq<char>,
    replacement: Seq<char>,
) -> Option<Seq<char>>;

/// `regex::Regex::new` and `Regex::replace_all` with `regex::NoExpand`: the text with every match of
/// the pattern replaced by the replacement as it stands, in which `$` means nothing; `None` where the
/// pattern is not accepted. The result depends on the three texts alone.
#[verifier::external_body]
pub(crate) fn replace_all(pattern: &str, text: &str, replacement: &str) -> (r: Option<String>)
    ensures
        r.deep_view() == regex_replaced(pattern@, text@, replacement@),
{
    let literal = regex::NoExpand(replacement);
    regex::Regex::new(pattern).ok().map(|re| re.replace_all(text, literal).to_string())
}

/// The characters that mean something in a pattern.
pub open spec fn meta_char(c: char) -> bool {
    c == '\\' || c == '.' || c == '+' || c == '*' || c == '?' || c == '(' || c == ')' || c == '|'
        || c == '[' || c == ']' || c == '{' || c == '}' || c == '^' || c == '$' || c == '#' || c
        == '&' || c == '-' || c == '~'
}

/// The pattern for a literal text: a backslash before each character that means something in a
/// pattern.
pub open spec fn regex_escaped(literal: Seq<char>) -> Seq<char>
    decreases literal.len(),
{
    if literal.len() == 0 {
        Seq::empty()
    } else if meta_char(literal.last()) {
        regex_escaped(literal.drop_last()).push('\\').push(literal.last())
    } else {
        regex_escaped(literal.drop_last()).push(literal.last())
    }
}

fn is_meta(c: char) -> (r: bool)
    ensures
        r == meta_char(c),
{
    c == '\\' || c == '.' || c == '+' || c == '*' || c == '?' || c == '(' || c == ')' || c == '|'
        || c == '[' || c == ']' || c == '{' || c == '}' || c == '^' || c == '$' || c == '#' || c
        == '&' || c == '-' || c == '~'
}

/// The pattern that matches the text literally.
pub fn escape(literal: &str) -> (r: String)
    ensures
        r@ == regex_escaped(literal@),
{
    let cs = chars_of(literal);
    let mut out = String::new();
    let mut i: usize = 0;
    assert(cs@.take(0) =~= Seq::empty());
    while i < cs.len()
        invariant
            i <= cs@.len(),
            out@ == regex_escaped(cs@.take(i as int)),
        decreases cs@.len() - i,
    {
        assert(cs@.take(i + 1).drop_last() =~= cs@.take(i as int));
        assert(cs@.take(i + 1).last() == cs@[i as int]);
        if is_meta(cs[i]) {
            out.push('\\');
        }
        out.push(cs[i]);
        i += 1;
    }
    assert(cs@.take(cs@.len() as int) =~= cs@);
    out
}

} // verus!

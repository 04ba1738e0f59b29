//! Markdown documents that begin with a YAML block between `---` marks.

use vstd::prelude::*;

use crate::text::{
    chars_of, contains, find_from, index_of, lemma_index_of, occurs_at, owned, str_starts_with,
    substring,
};

verus! {

broadcast use vstd::string::group_string_axioms;

/// The text without a byte order mark at its start.
pub open spec fn without_bom(text: Seq<char>) -> Seq<char> {
    if text.len() > 0 && text[0] == '\u{feff}' {
        text.skip(1)
    } else {
        text
    }
}

/// The text without line breaks at its start.
pub open spec fn without_leading_breaks(s: Seq<char>) -> Seq<char>
    decreases s.len(),
{
    if s.len() > 0 && (s[0] == '\r' || s[0] == '\n') {
        without_leading_breaks(s.skip(1))
    } else {
        s
    }
}

/// The block between the first two marks and the body behind the second, where the text begins
/// with a mark and has another.
pub open spec fn split_front(text: Seq<char>) -> Option<(Seq<char>, Seq<char>)> {
    let s = without_bom(text);
    if "---"@.is_prefix_of(s) {
        match index_of(s.skip(3), "---"@) {
            Some(k) => Some(
                (s.subrange(3, 3 + k), without_leading_breaks(s.skip(3 + k + 3))),
            ),
            None => None,
        }
    } else {
        None
    }
}

/// The text without a byte order mark at its start.
pub fn strip_bom(text: &str) -> (r: String)
    ensures
        r@ == without_bom(text@),
{
    let cs = chars_of(text);
    if cs.len() > 0 && cs[0] == '\u{feff}' {
        let r = substring(&cs, 1, cs.len());
        assert(r@ =~= text@.skip(1));
        r
    } else {
        owned(text)
    }
}

/// The YAML block and the body of a document, where it has a block.
pub fn split_frontmatter(text: &str) -> (r: Option<(String, String)>)
    ensures
        match r {
            Some((block, body)) => split_front(text@) == Some((block@, body@)),
            None => split_front(text@) is None,
        },
{
    let s = strip_bom(text);
    if !str_starts_with(s.as_str(), "---") {
        return None;
    }
    let cs = chars_of(s.as_str());
    let mark = chars_of("---");
    proof {
        reveal_strlit("---");
    }
    let n: usize = cs.len();
    let k: usize = match find_from(&cs, &mark, 3) {
        Some(k) => k,
        None => {
            return None;
        },
    };
    assert(3 + k + 3 <= n);
    let block = substring(&cs, 3, 3 + k);
    let mut i: usize = 3 + k + 3;
    while i < cs.len() && (cs[i] == '\r' || cs[i] == '\n')
        invariant
            3 + k + 3 <= i <= cs@.len(),
            without_leading_breaks(cs@.skip(3 + k + 3)) == without_leading_breaks(
                cs@.skip(i as int),
            ),
        decreases cs@.len() - i,
    {
        assert(cs@.skip(i as int).skip(1) =~= cs@.skip(i + 1));
        i = i + 1;
    }
    let body = substring(&cs, i, cs.len());
    assert(body@ =~= cs@.skip(i as int));
    Some((block, body))
}

/// The document of a block and a body.
pub open spec fn document(block: Seq<char>, body: Seq<char>) -> Seq<char> {
    "---\n"@ + block + "\n---\n\n"@ + body + "\n"@
}

/// A document gives back its block and its body, where the block holds no mark and the body begins
/// with no line break.
pub proof fn lemma_document_splits(block: Seq<char>, body: Seq<char>)
    requires
        !contains(block, "---"@),
        body.len() > 0,
        body[0] != '\r' && body[0] != '\n',
    ensures
        split_front(document(block, body)) == Some(
            ("\n"@ + block + "\n"@, body + "\n"@),
        ),
{
    reveal_strlit("---");
    reveal_strlit("---\n");
    reveal_strlit("\n---\n\n");
    reveal_strlit("\n");
    let text = document(block, body);
    let mark = "---"@;
    assert(text[0] == '-');
    assert(without_bom(text) == text);
    assert(mark =~= text.take(3));
    let rest = text.skip(3);
    let k: int = block.len() as int + 2;
    assert(rest.subrange(k, k + 3) =~= mark);
    assert(occurs_at(rest, mark, k));
    lemma_index_of(rest, mark);
    let first = index_of(rest, mark)->Some_0;
    assert(first <= k) by {
        if first > k {
            assert(!occurs_at(rest, mark, k));
        }
    }
    if first < k {
        let here = rest.subrange(first, first + 3);
        assert(here == mark);
        assert(here[0] == rest[first] && here[1] == rest[first + 1] && here[2] == rest[first + 2]);
        assert(rest[0] == '\n');
        assert(rest[block.len() as int + 1] == '\n');
        assert(first >= 1);
        assert(first + 2 <= block.len());
        assert(block.subrange(first - 1, first - 1 + 3) =~= here) by {
            assert(block[first - 1] == rest[first]);
            assert(block[first] == rest[first + 1]);
            assert(block[first + 1] == rest[first + 2]);
        }
        assert(occurs_at(block, mark, first - 1));
        assert(false);
    }
    assert(text.subrange(3, 3 + k) =~= "\n"@ + block + "\n"@);
    let tail = text.skip(3 + k + 3);
    assert(tail =~= seq!['\n', '\n'] + body + "\n"@);
    assert(tail.skip(1) =~= seq!['\n'] + body + "\n"@);
    assert(tail.skip(1).skip(1) =~= body + "\n"@);
    assert((body + "\n"@)[0] == body[0]);
    reveal_with_fuel(without_leading_breaks, 3);
}

} // verus!

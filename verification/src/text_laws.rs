//! What the operations on text keep of the text, and what they take away.

use vstd::prelude::*;

use crate::select::{
    holds, lemma_holds_behind, lemma_holds_itself, lemma_holds_nothing, lemma_holds_within,
};
use crate::text::{
    decimal, digit_char, hex_bytes, hex_char, hex_digits, index_of, lemma_index_of, lines,
    occurs_at, path_in, text_lt, trim, trim_end, trim_start, white_space, without_return, word_len,
    words,
};

verus! {

broadcast use vstd::string::group_string_axioms;

/// Every character is white space.
pub open spec fn all_white(s: Seq<char>) -> bool {
    forall|i: int| 0 <= i < s.len() ==> white_space(#[trigger] s[i])
}

/// No character is white space.
pub open spec fn none_white(s: Seq<char>) -> bool {
    forall|i: int| 0 <= i < s.len() ==> !white_space(#[trigger] s[i])
}

proof fn lemma_trim_start_takes(s: Seq<char>) -> (n: int)
    ensures
        0 <= n <= s.len(),
        all_white(s.take(n)),
        trim_start(s) == s.skip(n),
        trim_start(s).len() > 0 ==> !white_space(trim_start(s)[0]),
    decreases s.len(),
{
    if s.len() > 0 && white_space(s[0]) {
        let rest = s.skip(1);
        let n = lemma_trim_start_takes(rest);
        assert forall|i: int| 0 <= i < n + 1 implies white_space(#[trigger] s.take(n + 1)[i]) by {
            if i > 0 {
                assert(rest.take(n)[i - 1] == s[i]);
            }
        }
        assert(rest.skip(n) =~= s.skip(n + 1));
        n + 1
    } else {
        assert(s.skip(0) =~= s);
        0
    }
}

proof fn lemma_trim_end_takes(s: Seq<char>) -> (n: int)
    ensures
        0 <= n <= s.len(),
        all_white(s.skip(n)),
        trim_end(s) == s.take(n),
        trim_end(s).len() > 0 ==> !white_space(trim_end(s).last()),
    decreases s.len(),
{
    if s.len() > 0 && white_space(s.last()) {
        let rest = s.drop_last();
        let n = lemma_trim_end_takes(rest);
        assert forall|i: int| 0 <= i < s.len() - n implies white_space(#[trigger] s.skip(n)[i]) by {
            if i < rest.len() - n {
                assert(rest.skip(n)[i] == s[n + i]);
            }
        }
        assert(rest.take(n) =~= s.take(n));
        n
    } else {
        assert(s.take(s.len() as int) =~= s);
        s.len() as int
    }
}

/// Trimming takes white space off at both ends, all of it, and nothing else.
pub proof fn lemma_trim_takes(s: Seq<char>)
    ensures
        exists|a: int, b: int|
            0 <= a <= b <= s.len() && trim(s) == #[trigger] s.subrange(a, b) && all_white(s.take(a))
                && all_white(s.skip(b)),
        trim(s).len() > 0 ==> !white_space(trim(s)[0]) && !white_space(trim(s).last()),
{
    let a = lemma_trim_start_takes(s);
    let mid = trim_start(s);
    let n = lemma_trim_end_takes(mid);
    let b = a + n;
    assert(mid.take(n) =~= s.subrange(a, b));
    assert forall|i: int| 0 <= i < s.len() - b implies white_space(#[trigger] s.skip(b)[i]) by {
        assert(mid.skip(n)[i] == s[b + i]);
    }
    if trim(s).len() > 0 {
        assert(trim(s)[0] == mid[0]);
    }
}

proof fn lemma_word_ends(s: Seq<char>)
    ensures
        word_len(s) <= s.len(),
        none_white(s.take(word_len(s) as int)),
        word_len(s) < s.len() ==> white_space(s[word_len(s) as int]),
    decreases s.len(),
{
    if s.len() > 0 && !white_space(s[0]) {
        let rest = s.skip(1);
        lemma_word_ends(rest);
        let n = word_len(rest) as int;
        assert forall|i: int| 0 <= i < n + 1 implies !white_space(#[trigger] s.take(n + 1)[i]) by {
            if i > 0 {
                assert(rest.take(n)[i - 1] == s[i]);
            }
        }
    }
}

/// The words of a text stand in it whole and in order; none is empty and none holds white space.
pub proof fn lemma_words_stand(s: Seq<char>)
    ensures
        holds(s, words(s)),
        forall|i: int|
            0 <= i < words(s).len() ==> none_white(#[trigger] words(s)[i]) && words(s)[i].len() > 0,
        words(s).len() == 0 <==> all_white(s),
    decreases s.len(),
{
    let a = lemma_trim_start_takes(s);
    let t = trim_start(s);
    let n = word_len(t) as int;
    if t.len() == 0 {
        lemma_holds_nothing(s);
        assert(s.take(a) =~= s);
    } else {
        lemma_word_ends(t);
        let w = t.take(n);
        let rest = t.skip(n);
        lemma_words_stand(rest);
        lemma_holds_behind(w, Seq::empty(), rest, words(rest));
        lemma_holds_within(s.take(a), w + Seq::<char>::empty() + rest, Seq::empty(), words(s));
        assert(s.take(a) + (w + Seq::<char>::empty() + rest) + Seq::<char>::empty() =~= s);
        assert forall|i: int| 0 <= i < words(s).len() implies none_white(#[trigger] words(s)[i])
            && words(s)[i].len() > 0 by {
            if i > 0 {
                assert(words(s)[i] == words(rest)[i - 1]);
            }
        }
        assert(!white_space(s[a]));
    }
}

/// How many characters are not white space.
pub open spec fn ink(s: Seq<char>) -> nat
    decreases s.len(),
{
    if s.len() == 0 {
        0
    } else {
        ink(s.skip(1)) + if white_space(s[0]) {
            0nat
        } else {
            1nat
        }
    }
}

/// How many characters the words have together.
pub open spec fn letters(ws: Seq<Seq<char>>) -> nat
    decreases ws.len(),
{
    if ws.len() == 0 {
        0
    } else {
        ws[0].len() + letters(ws.skip(1))
    }
}

proof fn lemma_ink_adds(a: Seq<char>, b: Seq<char>)
    ensures
        ink(a + b) == ink(a) + ink(b),
    decreases a.len(),
{
    if a.len() == 0 {
        assert(a + b =~= b);
    } else {
        lemma_ink_adds(a.skip(1), b);
        assert((a + b).skip(1) =~= a.skip(1) + b);
    }
}

proof fn lemma_ink_ends(s: Seq<char>)
    ensures
        all_white(s) ==> ink(s) == 0,
        none_white(s) ==> ink(s) == s.len(),
    decreases s.len(),
{
    if s.len() > 0 {
        let rest = s.skip(1);
        lemma_ink_ends(rest);
        assert forall|i: int| 0 <= i < rest.len() implies #[trigger] rest[i] == s[i + 1] by {}
    }
}

/// No word is left out: together the words have every character that is not white space.
pub proof fn lemma_words_are_all(s: Seq<char>)
    ensures
        letters(words(s)) == ink(s),
    decreases s.len(),
{
    let a = lemma_trim_start_takes(s);
    let t = trim_start(s);
    let n = word_len(t) as int;
    lemma_ink_ends(s.take(a));
    lemma_ink_adds(s.take(a), t);
    assert(s.take(a) + t =~= s);
    if t.len() > 0 {
        lemma_word_ends(t);
        let w = t.take(n);
        let rest = t.skip(n);
        lemma_words_are_all(rest);
        lemma_ink_ends(w);
        lemma_ink_adds(w, rest);
        assert(w + rest =~= t);
        assert(words(s).skip(1) =~= words(rest));
        assert(words(s)[0] == w);
    }
}

/// The lines of a text stand in it whole and in order, and none holds a line feed.
pub proof fn lemma_lines_stand(s: Seq<char>)
    ensures
        holds(s, lines(s)),
        forall|i: int| 0 <= i < lines(s).len() ==> !(#[trigger] lines(s)[i]).contains('\n'),
        lines(s).len() == 0 <==> s.len() == 0,
    decreases s.len(),
{
    let nl = seq!['\n'];
    lemma_index_of(s, nl);
    if s.len() == 0 {
        lemma_holds_nothing(s);
    } else {
        match index_of(s, nl) {
            Some(k) => {
                let line = without_return(s.take(k));
                let rest = s.skip(k + 1);
                lemma_lines_stand(rest);
                let between = s.subrange(line.len() as int, k + 1);
                lemma_holds_behind(line, between, rest, lines(rest));
                assert(line + between + rest =~= s);
                assert forall|i: int| 0 <= i < lines(s).len() implies !(
                #[trigger] lines(s)[i]).contains('\n') by {
                    if i == 0 {
                        if line.contains('\n') {
                            let j = choose|j: int| 0 <= j < line.len() && line[j] == '\n';
                            assert(s.subrange(j, j + 1) =~= nl);
                            assert(occurs_at(s, nl, j));
                        }
                    } else {
                        assert(lines(s)[i] == lines(rest)[i - 1]);
                    }
                }
            },
            None => {
                lemma_holds_itself(s);
                if s.contains('\n') {
                    let j = choose|j: int| 0 <= j < s.len() && s[j] == '\n';
                    assert(s.subrange(j, j + 1) =~= nl);
                    assert(occurs_at(s, nl, j));
                }
            },
        }
    }
}

/// The number that decimal digits denote.
pub open spec fn number_of(s: Seq<char>) -> int
    decreases s.len(),
{
    if s.len() == 0 {
        0
    } else {
        10 * number_of(s.drop_last()) + (s.last() as int - '0' as int)
    }
}

/// A number in decimal notation denotes that number, in digits only.
pub proof fn lemma_decimal_denotes(n: nat)
    ensures
        number_of(decimal(n)) == n,
        decimal(n).len() > 0,
        forall|i: int| 0 <= i < decimal(n).len() ==> '0' <= #[trigger] decimal(n)[i] <= '9',
    decreases n,
{
    if n < 10 {
        assert(decimal(n).drop_last() =~= Seq::<char>::empty());
        reveal_with_fuel(number_of, 2);
        assert(decimal(n).last() as int == 48 + n);
    } else {
        lemma_decimal_denotes(n / 10);
        let front = decimal(n / 10);
        assert(front.push(digit_char(n % 10)).drop_last() =~= front);
        assert(digit_char(n % 10) as int == 48 + n % 10);
    }
}

/// Different numbers have different decimal notations.
pub proof fn lemma_decimal_tells_apart(a: nat, b: nat)
    requires
        decimal(a) == decimal(b),
    ensures
        a == b,
{
    lemma_decimal_denotes(a);
    lemma_decimal_denotes(b);
}

/// Bytes in hexadecimal notation have two digits each, in order, and no two bytes have the same.
pub proof fn lemma_hex_of_bytes(bytes: Seq<u8>)
    ensures
        hex_bytes(bytes).len() == 2 * bytes.len(),
        forall|i: int|
            0 <= i < bytes.len() ==> hex_bytes(bytes)[2 * i] == hex_char(
                ((#[trigger] bytes[i]) / 16) as nat,
            ) && hex_bytes(bytes)[2 * i + 1] == hex_char((bytes[i] % 16) as nat),
    decreases bytes.len(),
{
    if bytes.len() > 0 {
        let front = bytes.drop_last();
        lemma_hex_of_bytes(front);
        let b = bytes.last() as nat;
        reveal_with_fuel(hex_digits, 3);
        let own = hex_digits(b, 2);
        assert(own.len() == 2);
        assert(own[0] == hex_char(b / 16)) by {
            assert((b / 16) % 16 == b / 16);
        }
        assert(own[1] == hex_char(b % 16));
        let n = front.len() as int;
        assert(hex_bytes(front).len() == 2 * n);
        assert forall|i: int| 0 <= i < bytes.len() implies hex_bytes(bytes)[2 * i] == hex_char(
            ((#[trigger] bytes[i]) / 16) as nat,
        ) && hex_bytes(bytes)[2 * i + 1] == hex_char((bytes[i] % 16) as nat) by {
            if i < n {
                assert(front[i] == bytes[i]);
                assert(hex_bytes(bytes)[2 * i] == hex_bytes(front)[2 * i]);
                assert(hex_bytes(bytes)[2 * i + 1] == hex_bytes(front)[2 * i + 1]);
            } else {
                assert(hex_bytes(bytes)[2 * i] == own[0]);
                assert(hex_bytes(bytes)[2 * i + 1] == own[1]);
            }
        }
    }
}

/// A path begins with its directory and ends with its name, and no more than one slash stands between
/// them.
pub proof fn lemma_path_parts(dir: Seq<char>, name: Seq<char>)
    ensures
        dir.is_prefix_of(path_in(dir, name)),
        name.is_suffix_of(path_in(dir, name)),
        path_in(dir, name).len() <= dir.len() + 1 + name.len(),
        dir.len() > 0 && dir.last() != '/' ==> path_in(dir, name)[dir.len() as int] == '/',
{
    reveal_strlit("/");
    let p = path_in(dir, name);
    assert(p.subrange(0, dir.len() as int) =~= dir);
    assert(p.subrange(p.len() - name.len(), p.len() as int) =~= name);
}

/// One text stands before another where it is less at the first place where they differ, or is a
/// beginning of it.
pub proof fn lemma_text_order(a: Seq<char>, b: Seq<char>)
    ensures
        text_lt(a, b) ==> exists|k: int| #[trigger]
            agree_up_to(a, b, k) && k < b.len() && (k == a.len() || a[k] < b[k]),
        !text_lt(a, b) ==> exists|k: int| #[trigger]
            agree_up_to(a, b, k) && (k == b.len() || (k < a.len() && a[k] > b[k])),
    decreases a.len(),
{
    if b.len() == 0 || a.len() == 0 || a[0] != b[0] {
        assert(agree_up_to(a, b, 0));
    } else {
        let x = a.skip(1);
        let y = b.skip(1);
        lemma_text_order(x, y);
        let k = if text_lt(x, y) {
            choose|k: int| #[trigger]
                agree_up_to(x, y, k) && k < y.len() && (k == x.len() || x[k] < y[k])
        } else {
            choose|k: int| #[trigger]
                agree_up_to(x, y, k) && (k == y.len() || (k < x.len() && x[k] > y[k]))
        };
        assert forall|i: int| 0 <= i < k + 1 implies #[trigger] a[i] == b[i] by {
            if i > 0 {
                assert(x[i - 1] == y[i - 1]);
            }
        }
        assert(agree_up_to(a, b, k + 1));
        if k < x.len() {
            assert(x[k] == a[k + 1]);
        }
        if k < y.len() {
            assert(y[k] == b[k + 1]);
        }
    }
}

/// The texts agree in their first `k` characters.
pub open spec fn agree_up_to(a: Seq<char>, b: Seq<char>, k: int) -> bool {
    0 <= k <= a.len() && k <= b.len() && forall|i: int| 0 <= i < k ==> #[trigger] a[i] == b[i]
}

} // verus!

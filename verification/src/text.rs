//! Text as sequences of characters: trimming, splitting, searching, joining and number formatting.

use vstd::prelude::*;

verus! {

broadcast use vstd::string::group_string_axioms;

// ---- characters ----

/// A character with the Unicode `White_Space` property.
pub open spec fn white_space(c: char) -> bool {
    let u = c as u32;
    ||| 0x9 <= u <= 0xd
    ||| u == 0x20
    ||| u == 0x85
    ||| u == 0xa0
    ||| u == 0x1680
    ||| 0x2000 <= u <= 0x200a
    ||| u == 0x2028
    ||| u == 0x2029
    ||| u == 0x202f
    ||| u == 0x205f
    ||| u == 0x3000
}

/// Whether `c` is white space.
pub fn is_white_space(c: char) -> (r: bool)
    ensures
        r == white_space(c),
{
    let u: u32 = c as u32;
    (0x9 <= u && u <= 0xd) || u == 0x20 || u == 0x85 || u == 0xa0 || u == 0x1680 || (0x2000 <= u
        && u <= 0x200a) || u == 0x2028 || u == 0x2029 || u == 0x202f || u == 0x205f || u == 0x3000
}

/// An ASCII letter or digit.
pub open spec fn ascii_alphanumeric(c: char) -> bool {
    ('0' <= c <= '9') || ('a' <= c <= 'z') || ('A' <= c <= 'Z')
}

/// Whether `c` is an ASCII letter or digit.
pub fn is_ascii_alphanumeric(c: char) -> (r: bool)
    ensures
        r == ascii_alphanumeric(c),
{
    ('0' <= c && c <= '9') || ('a' <= c && c <= 'z') || ('A' <= c && c <= 'Z')
}

/// The ASCII lowercase form of `c`: `A..=Z` become `a..=z`, every other character stays.
pub open spec fn ascii_lower_char(c: char) -> char {
    if 'A' <= c <= 'Z' {
        (c as u32 + 32) as char
    } else {
        c
    }
}

/// `ascii_lower_char`, character by character.
pub open spec fn ascii_lower(s: Seq<char>) -> Seq<char> {
    s.map_values(|c: char| ascii_lower_char(c))
}

fn to_ascii_lower_char(c: char) -> (r: char)
    ensures
        r == ascii_lower_char(c),
{
    if 'A' <= c && c <= 'Z' {
        ((c as u8) + 32) as char
    } else {
        c
    }
}

/// What `char::is_alphanumeric` answers.
pub uninterp spec fn alphanumeric(c: char) -> bool;

/// `char::is_alphanumeric`: a fixed Unicode property of the character; on ASCII it holds of the
/// letters and digits and of nothing else.
pub assume_specification[ char::is_alphanumeric ](c: char) -> (r: bool)
    ensures
        r == alphanumeric(c),
        (c as u32) < 128 ==> r == ascii_alphanumeric(c),
;

/// What `str::to_lowercase` answers.
pub uninterp spec fn lowercase(s: Seq<char>) -> Seq<char>;

/// `str::to_lowercase`: the Unicode lowercase form of the text, a function of the text alone; on
/// ASCII text it changes `A..=Z` to `a..=z` and nothing else.
pub assume_specification[ str::to_lowercase ](s: &str) -> (r: String)
    ensures
        r@ == lowercase(s@),
        vstd::utf8::is_ascii_chars(s@) ==> r@ == ascii_lower(s@),
;

/// The character is a letter or a digit.
pub open spec fn letter_or_digit(c: char) -> bool {
    if (c as u32) < 128 {
        ascii_alphanumeric(c)
    } else {
        alphanumeric(c)
    }
}

/// The text in lower case.
pub open spec fn lowered(s: Seq<char>) -> Seq<char> {
    if vstd::utf8::is_ascii_chars(s) {
        ascii_lower(s)
    } else {
        lowercase(s)
    }
}

/// `String::push`: appends the character.
pub assume_specification[ String::push ](s: &mut String, c: char)
    ensures
        final(s)@ == old(s)@.push(c),
;

// ---- characters in and out of strings ----

/// The characters of `s`.
pub fn chars_of(s: &str) -> (r: Vec<char>)
    ensures
        r@ == s@,
{
    let mut out: Vec<char> = Vec::new();
    for c in it: s.chars()
        invariant
            it.seq() == s@,
            out@ == it.seq().take(it.index() as int),
    {
        out.push(c);
    }
    out
}

/// The string of the characters `from..to`.
pub fn substring(cs: &[char], from: usize, to: usize) -> (r: String)
    requires
        from <= to <= cs@.len(),
    ensures
        r@ == cs@.subrange(from as int, to as int),
{
    let mut out = String::new();
    let mut i: usize = from;
    while i < to
        invariant
            from <= i <= to <= cs@.len(),
            out@ == cs@.subrange(from as int, i as int),
        decreases to - i,
    {
        out.push(cs[i]);
        i = i + 1;
    }
    out
}

/// The string of all the characters.
pub fn string_of(cs: &[char]) -> (r: String)
    ensures
        r@ == cs@,
{
    let r = substring(cs, 0, cs.len());
    assert(cs@.subrange(0, cs@.len() as int) =~= cs@);
    r
}

/// A copy of `s`.
pub fn owned(s: &str) -> (r: String)
    ensures
        r@ == s@,
{
    s.to_owned()
}

/// The two texts one after the other.
pub fn concat2(a: &str, b: &str) -> (r: String)
    ensures
        r@ == a@ + b@,
{
    let mut out = owned(a);
    out.append(b);
    out
}

/// The three texts one after the other.
pub fn concat3(a: &str, b: &str, c: &str) -> (r: String)
    ensures
        r@ == a@ + b@ + c@,
{
    let mut out = owned(a);
    out.append(b);
    out.append(c);
    out
}

/// Whether the two texts are the same.
pub fn str_eq(a: &str, b: &str) -> (r: bool)
    ensures
        r == (a@ == b@),
{
    owned(a) == owned(b)
}

/// The number of characters of `s`.
pub fn char_count(s: &str) -> (r: usize)
    ensures
        r == s@.len(),
{
    s.unicode_len()
}


// ---- trimming ----

/// `s` without its leading white space.
pub open spec fn trim_start(s: Seq<char>) -> Seq<char>
    decreases s.len(),
{
    if s.len() > 0 && white_space(s[0]) {
        trim_start(s.skip(1))
    } else {
        s
    }
}

/// `s` without its trailing white space.
pub open spec fn trim_end(s: Seq<char>) -> Seq<char>
    decreases s.len(),
{
    if s.len() > 0 && white_space(s.last()) {
        trim_end(s.drop_last())
    } else {
        s
    }
}

/// `s` without white space at either end.
pub open spec fn trim(s: Seq<char>) -> Seq<char> {
    trim_end(trim_start(s))
}

proof fn lemma_trim_start_len(s: Seq<char>)
    ensures
        trim_start(s).len() <= s.len(),
    decreases s.len(),
{
    if s.len() > 0 && white_space(s[0]) {
        lemma_trim_start_len(s.skip(1));
    }
}

/// The first index at or after `from` whose character is not white space.
fn skip_white_space(cs: &[char], from: usize) -> (r: usize)
    requires
        from <= cs@.len(),
    ensures
        from <= r <= cs@.len(),
        trim_start(cs@.skip(from as int)) == cs@.skip(r as int),
        r < cs@.len() ==> !white_space(cs@[r as int]),
{
    let mut i: usize = from;
    while i < cs.len() && is_white_space(cs[i])
        invariant
            from <= i <= cs@.len(),
            trim_start(cs@.skip(from as int)) == trim_start(cs@.skip(i as int)),
        decreases cs@.len() - i,
    {
        assert(cs@.skip(i as int).skip(1) =~= cs@.skip(i + 1));
        i = i + 1;
    }
    i
}

/// Where the text `from..to` ends once its trailing white space is gone.
fn drop_white_space(cs: &[char], from: usize, to: usize) -> (r: usize)
    requires
        from <= to <= cs@.len(),
    ensures
        from <= r <= to,
        trim_end(cs@.subrange(from as int, to as int)) == cs@.subrange(from as int, r as int),
{
    let mut j: usize = to;
    while j > from && is_white_space(cs[j - 1])
        invariant
            from <= j <= to <= cs@.len(),
            trim_end(cs@.subrange(from as int, to as int)) == trim_end(
                cs@.subrange(from as int, j as int),
            ),
        decreases j,
    {
        assert(cs@.subrange(from as int, j as int).drop_last() =~= cs@.subrange(
            from as int,
            j - 1,
        ));
        j = j - 1;
    }
    j
}

/// The text without white space at either end (`str::trim`).
pub fn trimmed(s: &str) -> (r: String)
    ensures
        r@ == trim(s@),
{
    let cs = chars_of(s);
    assert(cs@.skip(0) =~= cs@);
    let i = skip_white_space(&cs, 0);
    let j = drop_white_space(&cs, i, cs.len());
    assert(cs@.skip(i as int) =~= cs@.subrange(i as int, cs@.len() as int));
    substring(&cs, i, j)
}

/// The text without trailing white space (`str::trim_end`).
pub fn trimmed_end(s: &str) -> (r: String)
    ensures
        r@ == trim_end(s@),
{
    let cs = chars_of(s);
    let j = drop_white_space(&cs, 0, cs.len());
    assert(cs@ =~= cs@.subrange(0, cs@.len() as int));
    substring(&cs, 0, j)
}

/// Whether nothing but white space is in the text.
pub open spec fn blank(s: Seq<char>) -> bool {
    trim(s).len() == 0
}

/// Whether nothing but white space is in the text.
pub fn is_blank(s: &str) -> (r: bool)
    ensures
        r == blank(s@),
{
    let t = trimmed(s);
    t.as_str().is_empty()
}

// ---- words ----

/// How many characters stand before the first white space.
pub open spec fn word_len(s: Seq<char>) -> nat
    decreases s.len(),
{
    if s.len() == 0 || white_space(s[0]) {
        0
    } else {
        1 + word_len(s.skip(1))
    }
}

proof fn lemma_word_len(s: Seq<char>)
    ensures
        word_len(s) <= s.len(),
    decreases s.len(),
{
    if s.len() > 0 && !white_space(s[0]) {
        lemma_word_len(s.skip(1));
    }
}

/// The maximal runs of characters that are not white space, in order (`str::split_whitespace`).
pub open spec fn words(s: Seq<char>) -> Seq<Seq<char>>
    decreases s.len(),
    via words_decreases
{
    let t = trim_start(s);
    if t.len() == 0 {
        Seq::empty()
    } else {
        seq![t.take(word_len(t) as int)] + words(t.skip(word_len(t) as int))
    }
}

#[via_fn]
proof fn words_decreases(s: Seq<char>) {
    lemma_trim_start_len(s);
    lemma_trim_start_first(s);
    lemma_word_len(trim_start(s));
}

proof fn lemma_trim_start_first(s: Seq<char>)
    ensures
        trim_start(s).len() > 0 ==> !white_space(trim_start(s)[0]),
    decreases s.len(),
{
    if s.len() > 0 && white_space(s[0]) {
        lemma_trim_start_first(s.skip(1));
    }
}

/// The views of a sequence of strings.
pub open spec fn texts(v: Seq<String>) -> Seq<Seq<char>> {
    v.map_values(|s: String| s@)
}

/// The words of the text (`str::split_whitespace`).
pub fn split_words(s: &str) -> (r: Vec<String>)
    ensures
        texts(r@) == words(s@),
{
    let cs = chars_of(s);
    let mut out: Vec<String> = Vec::new();
    let mut i: usize = 0;
    assert(cs@.skip(0) =~= cs@);
    assert(texts(out@) + words(cs@) =~= words(cs@));
    loop
        invariant
            i <= cs@.len(),
            texts(out@) + words(cs@.skip(i as int)) == words(cs@),
        ensures
            texts(out@) == words(cs@),
        decreases cs@.len() - i,
    {
        let start = skip_white_space(&cs, i);
        if start == cs.len() {
            assert(words(cs@.skip(i as int)) =~= Seq::<Seq<char>>::empty());
            assert(texts(out@) + Seq::<Seq<char>>::empty() =~= texts(out@));
            break;
        }
        let ghost t = cs@.skip(start as int);
        let mut end: usize = start;
        while end < cs.len() && !is_white_space(cs[end])
            invariant
                start <= end <= cs@.len(),
                t == cs@.skip(start as int),
                word_len(t) == (end - start) + word_len(cs@.skip(end as int)),
            decreases cs@.len() - end,
        {
            assert(cs@.skip(end as int).skip(1) =~= cs@.skip(end + 1));
            end = end + 1;
        }
        assert(word_len(t) == end - start);
        let w = substring(&cs, start, end);
        assert(w@ =~= t.take(word_len(t) as int));
        assert(t.skip(word_len(t) as int) =~= cs@.skip(end as int));
        proof {
            lemma_trim_start_first(cs@.skip(i as int));
            let before = texts(out@);
            assert(words(cs@.skip(i as int)) == seq![w@] + words(cs@.skip(end as int)));
            assert(texts(out@.push(w)) =~= before.push(w@));
            assert(before.push(w@) + words(cs@.skip(end as int)) =~= before + (seq![w@] + words(
                cs@.skip(end as int),
            )));
        }
        out.push(w);
        i = end;
    }
    out
}

// ---- joining ----

/// The parts one after the other with `sep` between neighbours.
pub open spec fn join(parts: Seq<Seq<char>>, sep: Seq<char>) -> Seq<char>
    decreases parts.len(),
{
    if parts.len() == 0 {
        Seq::empty()
    } else if parts.len() == 1 {
        parts[0]
    } else {
        join(parts.drop_last(), sep) + sep + parts.last()
    }
}

/// The parts joined with `sep` between neighbours.
pub fn joined(parts: &[String], sep: &str) -> (r: String)
    ensures
        r@ == join(texts(parts@), sep@),
{
    let mut out = String::new();
    let mut i: usize = 0;
    let ghost all = texts(parts@);
    while i < parts.len()
        invariant
            i <= parts@.len(),
            all == texts(parts@),
            out@ == join(all.take(i as int), sep@),
        decreases parts@.len() - i,
    {
        assert(all.take(i + 1).drop_last() =~= all.take(i as int));
        if i > 0 {
            out.append(sep);
        }
        out.append(parts[i].as_str());
        i = i + 1;
        assert(out@ =~= join(all.take(i as int), sep@));
    }
    assert(all.take(parts@.len() as int) =~= all);
    out
}

/// The words of `s` with single spaces between them.
pub open spec fn normal_spaces(s: Seq<char>) -> Seq<char> {
    join(words(s), " "@)
}

/// The words of `s` with single spaces between them.
pub fn normalize_ws(s: &str) -> (r: String)
    ensures
        r@ == normal_spaces(s@),
{
    let ws = split_words(s);
    joined(&ws, " ")
}

/// The first `n` characters, or all of them where there are fewer.
pub open spec fn first_chars(s: Seq<char>, n: int) -> Seq<char> {
    if n < s.len() {
        s.take(n)
    } else {
        s
    }
}

/// The first `n` characters, or all of them where there are fewer.
pub fn take_chars(s: &str, n: usize) -> (r: String)
    ensures
        r@ == first_chars(s@, n as int),
{
    let cs = chars_of(s);
    if n < cs.len() {
        substring(&cs, 0, n)
    } else {
        owned(s)
    }
}

// ---- searching ----

/// `sub` stands in `s` at index `i`.
pub open spec fn occurs_at(s: Seq<char>, sub: Seq<char>, i: int) -> bool {
    0 <= i <= s.len() - sub.len() && s.subrange(i, i + sub.len()) == sub
}

/// `sub` stands somewhere in `s`.
pub open spec fn contains(s: Seq<char>, sub: Seq<char>) -> bool {
    exists|i: int| occurs_at(s, sub, i)
}

/// The first index at which `sub` stands in `s`.
pub open spec fn index_of(s: Seq<char>, sub: Seq<char>) -> Option<int>
    decreases s.len(),
{
    if s.len() < sub.len() {
        None
    } else if s.take(sub.len() as int) == sub {
        Some(0int)
    } else if s.len() == 0 {
        None
    } else {
        match index_of(s.skip(1), sub) {
            Some(k) => Some(k + 1),
            None => None,
        }
    }
}

/// `index_of` gives the first occurrence, and gives one whenever there is any.
pub proof fn lemma_index_of(s: Seq<char>, sub: Seq<char>)
    ensures
        index_of(s, sub) is Some <==> contains(s, sub),
        index_of(s, sub) matches Some(k) ==> occurs_at(s, sub, k) && forall|i: int|
            0 <= i < k ==> !occurs_at(s, sub, i),
    decreases s.len(),
{
    if s.len() < sub.len() {
    } else if s.take(sub.len() as int) == sub {
        assert(s.subrange(0, 0 + sub.len() as int) =~= s.take(sub.len() as int));
        assert(occurs_at(s, sub, 0));
    } else if s.len() > 0 {
        let t = s.skip(1);
        lemma_index_of(t, sub);
        assert forall|i: int| 0 <= i implies occurs_at(t, sub, i) == occurs_at(s, sub, i + 1) by {
            if i <= t.len() - sub.len() {
                assert(t.subrange(i, i + sub.len()) =~= s.subrange(i + 1, i + 1 + sub.len()));
            }
        }
        assert(!occurs_at(s, sub, 0)) by {
            assert(s.subrange(0, 0 + sub.len() as int) =~= s.take(sub.len() as int));
        }
        if contains(t, sub) {
            let i = choose|i: int| occurs_at(t, sub, i);
            assert(occurs_at(s, sub, i + 1));
        }
        if contains(s, sub) {
            let i = choose|i: int| occurs_at(s, sub, i);
            assert(occurs_at(t, sub, i - 1));
        }
        if let Some(k) = index_of(t, sub) {
            assert forall|i: int| 0 <= i < k + 1 implies !occurs_at(s, sub, i) by {
                if i > 0 {
                    assert(!occurs_at(t, sub, i - 1));
                }
            }
        }
    }
}

/// Whether `sub` stands in `cs` at index `i`.
fn matches_at(cs: &[char], sub: &[char], i: usize) -> (r: bool)
    requires
        i + sub@.len() <= cs@.len(),
    ensures
        r == (cs@.subrange(i as int, i + sub@.len()) == sub@),
{
    let n: usize = cs.len();
    let mut k: usize = 0;
    while k < sub.len()
        invariant
            k <= sub@.len(),
            n == cs@.len(),
            i + sub@.len() <= cs@.len(),
            forall|j: int| 0 <= j < k ==> cs@[i + j] == sub@[j],
        decreases sub@.len() - k,
    {
        if cs[i + k] != sub[k] {
            assert(cs@.subrange(i as int, i + sub@.len())[k as int] != sub@[k as int]);
            return false;
        }
        k = k + 1;
    }
    assert(cs@.subrange(i as int, i + sub@.len()) =~= sub@);
    true
}

/// The first index at or after `from` at which `sub` stands, counted from `from`.
pub fn find_from(cs: &[char], sub: &[char], from: usize) -> (r: Option<usize>)
    requires
        from <= cs@.len(),
    ensures
        match r {
            Some(k) => index_of(cs@.skip(from as int), sub@) == Some(k as int) && from + k
                + sub@.len() <= cs@.len(),
            None => index_of(cs@.skip(from as int), sub@) is None,
        },
{
    let mut i: usize = from;
    let ghost s = cs@.skip(from as int);
    loop
        invariant
            from <= i <= cs@.len(),
            s == cs@.skip(from as int),
            match index_of(cs@.skip(i as int), sub@) {
                Some(k) => index_of(s, sub@) == Some(k + i - from),
                None => index_of(s, sub@) is None,
            },
        decreases cs@.len() - i,
    {
        if cs.len() - i < sub.len() {
            return None;
        }
        assert(cs@.skip(i as int).take(sub@.len() as int) =~= cs@.subrange(
            i as int,
            i + sub@.len(),
        ));
        if matches_at(cs, sub, i) {
            return Some(i - from);
        }
        if i == cs.len() {
            return None;
        }
        assert(cs@.skip(i as int).skip(1) =~= cs@.skip(i + 1));
        i = i + 1;
    }
}

/// Whether `sub` stands somewhere in `s`.
pub fn str_contains(s: &str, sub: &str) -> (r: bool)
    ensures
        r == contains(s@, sub@),
{
    let cs = chars_of(s);
    let ss = chars_of(sub);
    assert(cs@.skip(0) =~= cs@);
    proof {
        lemma_index_of(s@, sub@);
    }
    find_from(&cs, &ss, 0).is_some()
}

/// Whether `s` begins with `p`.
pub fn str_starts_with(s: &str, p: &str) -> (r: bool)
    ensures
        r == p@.is_prefix_of(s@),
{
    let cs = chars_of(s);
    let ps = chars_of(p);
    if ps.len() > cs.len() {
        return false;
    }
    matches_at(&cs, &ps, 0)
}

/// Whether `s` ends with `p`.
pub fn str_ends_with(s: &str, p: &str) -> (r: bool)
    ensures
        r == p@.is_suffix_of(s@),
{
    let cs = chars_of(s);
    let ps = chars_of(p);
    if ps.len() > cs.len() {
        return false;
    }
    matches_at(&cs, &ps, cs.len() - ps.len())
}

/// The two texts are equal once ASCII letters are lowered.
pub open spec fn same_ignoring_ascii_case(a: Seq<char>, b: Seq<char>) -> bool {
    ascii_lower(a) == ascii_lower(b)
}

/// `str::eq_ignore_ascii_case`.
pub fn eq_ignore_ascii_case(a: &str, b: &str) -> (r: bool)
    ensures
        r == same_ignoring_ascii_case(a@, b@),
{
    let x = chars_of(a);
    let y = chars_of(b);
    if x.len() != y.len() {
        assert(ascii_lower(a@).len() != ascii_lower(b@).len());
        return false;
    }
    let mut i: usize = 0;
    while i < x.len()
        invariant
            i <= x@.len(),
            x@ == a@,
            y@ == b@,
            x@.len() == y@.len(),
            forall|j: int| 0 <= j < i ==> ascii_lower_char(x@[j]) == ascii_lower_char(y@[j]),
        decreases x@.len() - i,
    {
        if to_ascii_lower_char(x[i]) != to_ascii_lower_char(y[i]) {
            assert(ascii_lower(a@)[i as int] != ascii_lower(b@)[i as int]);
            return false;
        }
        i = i + 1;
    }
    assert(ascii_lower(a@) =~= ascii_lower(b@));
    true
}

/// Whether the list holds the text.
pub fn list_contains(list: &[String], s: &str) -> (r: bool)
    ensures
        r == texts(list@).contains(s@),
{
    let mut i: usize = 0;
    while i < list.len()
        invariant
            i <= list@.len(),
            forall|j: int| 0 <= j < i ==> texts(list@)[j] != s@,
        decreases list@.len() - i,
    {
        if str_eq(list[i].as_str(), s) {
            assert(texts(list@)[i as int] == s@);
            return true;
        }
        i = i + 1;
    }
    false
}

/// A copy of the list.
pub fn clone_list(list: &[String]) -> (r: Vec<String>)
    ensures
        texts(r@) == texts(list@),
        r@.len() == list@.len(),
{
    let mut out: Vec<String> = Vec::new();
    let mut i: usize = 0;
    while i < list.len()
        invariant
            i <= list@.len(),
            out@.len() == i,
            forall|j: int| 0 <= j < i ==> out@[j]@ == list@[j]@,
        decreases list@.len() - i,
    {
        out.push(list[i].clone());
        i = i + 1;
    }
    assert(texts(out@) =~= texts(list@));
    out
}

// ---- order ----

/// The order of texts by code point, the order in which `String` compares.
pub open spec fn text_lt(a: Seq<char>, b: Seq<char>) -> bool
    decreases a.len(),
{
    if b.len() == 0 {
        false
    } else if a.len() == 0 {
        true
    } else if a[0] == b[0] {
        text_lt(a.skip(1), b.skip(1))
    } else {
        a[0] < b[0]
    }
}

/// Whether `a` stands before `b` in the order of texts.
pub fn str_lt(a: &str, b: &str) -> (r: bool)
    ensures
        r == text_lt(a@, b@),
{
    let x = chars_of(a);
    let y = chars_of(b);
    let mut i: usize = 0;
    assert(x@.skip(0) =~= x@ && y@.skip(0) =~= y@);
    while i < x.len() && i < y.len() && x[i] == y[i]
        invariant
            i <= x@.len(),
            i <= y@.len(),
            text_lt(x@, y@) == text_lt(x@.skip(i as int), y@.skip(i as int)),
        decreases x@.len() - i,
    {
        assert(x@.skip(i as int).skip(1) =~= x@.skip(i + 1));
        assert(y@.skip(i as int).skip(1) =~= y@.skip(i + 1));
        i = i + 1;
    }
    if i == y.len() {
        false
    } else if i == x.len() {
        true
    } else {
        x[i] < y[i]
    }
}

/// The order of texts is total: of two different texts one stands before the other.
pub proof fn lemma_text_lt_total(a: Seq<char>, b: Seq<char>)
    ensures
        a == b || text_lt(a, b) || text_lt(b, a),
    decreases a.len(),
{
    if a.len() > 0 && b.len() > 0 && a[0] == b[0] {
        lemma_text_lt_total(a.skip(1), b.skip(1));
        if a.skip(1) == b.skip(1) {
            assert(a =~= seq![a[0]] + a.skip(1));
            assert(b =~= seq![b[0]] + b.skip(1));
        }
    } else if a.len() == 0 && b.len() == 0 {
        assert(a =~= b);
    }
}

/// Nothing stands before itself.
pub proof fn lemma_text_lt_irreflexive(a: Seq<char>)
    ensures
        !text_lt(a, a),
    decreases a.len(),
{
    if a.len() > 0 {
        lemma_text_lt_irreflexive(a.skip(1));
    }
}

/// The order of texts is transitive.
pub proof fn lemma_text_lt_transitive(a: Seq<char>, b: Seq<char>, c: Seq<char>)
    requires
        text_lt(a, b),
        text_lt(b, c),
    ensures
        text_lt(a, c),
    decreases a.len(),
{
    if a.len() > 0 && b.len() > 0 && c.len() > 0 && a[0] == b[0] && b[0] == c[0] {
        lemma_text_lt_transitive(a.skip(1), b.skip(1), c.skip(1));
    }
}

// ---- numbers ----

/// The decimal digit of `d`.
pub open spec fn digit_char(d: nat) -> char {
    (48 + d) as char
}

/// `n` in decimal notation.
pub open spec fn decimal(n: nat) -> Seq<char>
    decreases n,
{
    if n < 10 {
        seq![digit_char(n)]
    } else {
        decimal(n / 10).push(digit_char(n % 10))
    }
}

/// `n` in decimal notation.
pub fn decimal_u64(n: u64) -> (r: String)
    ensures
        r@ == decimal(n as nat),
    decreases n,
{
    let d: u8 = (n % 10) as u8;
    let c = (48 + d) as char;
    if n < 10 {
        let mut s = String::new();
        s.push(c);
        s
    } else {
        let mut s = decimal_u64(n / 10);
        s.push(c);
        s
    }
}

/// `n` in decimal notation.
pub fn decimal_usize(n: usize) -> (r: String)
    ensures
        r@ == decimal(n as nat),
{
    decimal_u64(n as u64)
}

/// The lowercase hexadecimal digit of `d`.
pub open spec fn hex_char(d: nat) -> char {
    if d < 10 {
        (48 + d) as char
    } else {
        (87 + d) as char
    }
}

/// `n` in lowercase hexadecimal notation with exactly `width` digits, the low ones.
pub open spec fn hex_digits(n: nat, width: nat) -> Seq<char>
    decreases width,
{
    if width == 0 {
        Seq::empty()
    } else {
        hex_digits(n / 16, (width - 1) as nat).push(hex_char(n % 16))
    }
}

fn hex_of(n: u32, width: usize) -> (r: String)
    ensures
        r@ == hex_digits(n as nat, width as nat),
    decreases width,
{
    if width == 0 {
        String::new()
    } else {
        let mut s = hex_of(n / 16, width - 1);
        let d: u8 = (n % 16) as u8;
        let c = if d < 10 {
            (48 + d) as char
        } else {
            (87 + d) as char
        };
        s.push(c);
        s
    }
}

/// `n` in lowercase hexadecimal notation, eight digits (`{:08x}`).
pub fn hex8(n: u32) -> (r: String)
    ensures
        r@ == hex_digits(n as nat, 8),
{
    hex_of(n, 8)
}

/// The bytes in lowercase hexadecimal notation, two digits each.
pub open spec fn hex_bytes(bytes: Seq<u8>) -> Seq<char>
    decreases bytes.len(),
{
    if bytes.len() == 0 {
        Seq::empty()
    } else {
        hex_bytes(bytes.drop_last()) + hex_digits(bytes.last() as nat, 2)
    }
}

/// The bytes in lowercase hexadecimal notation, two digits each.
pub fn hex_encode(bytes: &[u8]) -> (r: String)
    ensures
        r@ == hex_bytes(bytes@),
{
    let mut out = String::new();
    let mut i: usize = 0;
    while i < bytes.len()
        invariant
            i <= bytes@.len(),
            out@ == hex_bytes(bytes@.take(i as int)),
        decreases bytes@.len() - i,
    {
        assert(bytes@.take(i + 1).drop_last() =~= bytes@.take(i as int));
        let h = hex_of(bytes[i] as u32, 2);
        out.append(h.as_str());
        i = i + 1;
    }
    assert(bytes@.take(bytes@.len() as int) =~= bytes@);
    out
}

// ---- lines ----

/// The lines of the text: what stands between line feeds, a carriage return before a line feed
/// taken off, and no empty line after the last line feed (`str::lines`).
pub open spec fn lines(s: Seq<char>) -> Seq<Seq<char>>
    decreases s.len(),
    via lines_decreases
{
    if s.len() == 0 {
        Seq::empty()
    } else {
        match index_of(s, seq!['\n']) {
            Some(k) => seq![without_return(s.take(k))] + lines(s.skip(k + 1)),
            None => seq![s],
        }
    }
}

#[via_fn]
proof fn lines_decreases(s: Seq<char>) {
    lemma_index_of(s, seq!['\n']);
}

/// The line without one carriage return at its end.
pub open spec fn without_return(line: Seq<char>) -> Seq<char> {
    if line.len() > 0 && line.last() == '\r' {
        line.drop_last()
    } else {
        line
    }
}

/// The lines of the text (`str::lines`).
pub fn split_lines(s: &str) -> (r: Vec<String>)
    ensures
        texts(r@) == lines(s@),
{
    let cs = chars_of(s);
    let mut nl: Vec<char> = Vec::new();
    nl.push('\n');
    assert(nl@ =~= seq!['\n']);
    let mut out: Vec<String> = Vec::new();
    let mut i: usize = 0;
    assert(cs@.skip(0) =~= cs@);
    assert(texts(out@) + lines(cs@) =~= lines(cs@));
    loop
        invariant_except_break
            i <= cs@.len(),
            nl@ == seq!['\n'],
            texts(out@) + lines(cs@.skip(i as int)) == lines(cs@),
        ensures
            texts(out@) == lines(cs@),
        decreases cs@.len() - i,
    {
        let ghost rest = cs@.skip(i as int);
        let ghost before = texts(out@);
        if i == cs.len() {
            assert(lines(rest) =~= Seq::<Seq<char>>::empty());
            assert(before + Seq::<Seq<char>>::empty() =~= before);
            break;
        }
        match find_from(&cs, &nl, i) {
            Some(k) => {
                let end = if k > 0 && cs[i + k - 1] == '\r' {
                    i + k - 1
                } else {
                    i + k
                };
                let line = substring(&cs, i, end);
                assert(line@ =~= without_return(rest.take(k as int)));
                assert(rest.skip(k + 1) =~= cs@.skip(i + k + 1));
                assert(texts(out@.push(line)) =~= before.push(line@));
                assert(before.push(line@) + lines(rest.skip(k + 1)) =~= before + lines(rest));
                out.push(line);
                i = i + k + 1;
            },
            None => {
                let line = substring(&cs, i, cs.len());
                assert(line@ =~= rest);
                assert(texts(out@.push(line)) =~= before + lines(rest));
                out.push(line);
                break;
            },
        }
    }
    out
}

// ---- sizes and paths ----

/// The length of the text in UTF-8 bytes.
pub open spec fn byte_len(s: Seq<char>) -> usize {
    vstd::utf8::encode_utf8(s).len() as usize
}

/// The length of the text in UTF-8 bytes (`str::len`).
pub fn byte_count(s: &str) -> (r: usize)
    ensures
        r == byte_len(s@),
{
    s.len()
}

/// The path of the entry `name` of the directory `dir`.
pub open spec fn path_in(dir: Seq<char>, name: Seq<char>) -> Seq<char> {
    if dir.len() == 0 || dir.last() == '/' {
        dir + name
    } else {
        dir + "/"@ + name
    }
}

/// The path of the entry `name` of the directory `dir`.
pub fn join_path(dir: &str, name: &str) -> (r: String)
    ensures
        r@ == path_in(dir@, name@),
{
    let cs = chars_of(dir);
    if cs.len() == 0 || cs[cs.len() - 1] == '/' {
        concat2(dir, name)
    } else {
        concat3(dir, "/", name)
    }
}

/// `n` in decimal notation, with a minus sign where it is negative.
pub open spec fn signed(n: int) -> Seq<char> {
    if n < 0 {
        "-"@ + decimal((-n) as nat)
    } else {
        decimal(n as nat)
    }
}

/// `n` in decimal notation, with a minus sign where it is negative.
pub fn signed_i32(n: i32) -> (r: String)
    ensures
        r@ == signed(n as int),
{
    if n < 0 {
        concat2("-", decimal_u64((-(n as i64)) as u64).as_str())
    } else {
        decimal_u64(n as u64)
    }
}

/// How many UTF-8 bytes the character takes.
pub open spec fn utf8_width(c: char) -> nat {
    vstd::utf8::encode_scalar(c as u32).len()
}

/// The longest start of the text that takes at most `max` UTF-8 bytes.
pub open spec fn bytes_prefix(s: Seq<char>, max: nat) -> Seq<char>
    decreases s.len(),
{
    if s.len() == 0 || utf8_width(s[0]) > max {
        Seq::empty()
    } else {
        seq![s[0]] + bytes_prefix(s.skip(1), (max - utf8_width(s[0])) as nat)
    }
}

fn char_width(c: char) -> (r: usize)
    ensures
        r == utf8_width(c),
{
    let u = c as u32;
    if u <= 0x7f {
        1
    } else if u <= 0x7ff {
        2
    } else if u <= 0xffff {
        3
    } else {
        4
    }
}

/// The longest start of the text that takes at most `max` UTF-8 bytes.
pub fn take_bytes(s: &str, max: usize) -> (r: String)
    ensures
        r@ == bytes_prefix(s@, max as nat),
{
    let cs = chars_of(s);
    let mut left: usize = max;
    let mut i: usize = 0;
    assert(s@.take(0) + bytes_prefix(s@.skip(0), max as nat) =~= bytes_prefix(s@, max as nat)) by {
        assert(s@.skip(0) =~= s@);
    }
    while i < cs.len()
        invariant
            i <= cs@.len(),
            cs@ == s@,
            bytes_prefix(s@, max as nat) == s@.take(i as int) + bytes_prefix(
                s@.skip(i as int),
                left as nat,
            ),
        decreases cs@.len() - i,
    {
        let width: usize = char_width(cs[i]);
        assert(s@.skip(i as int)[0] == cs@[i as int]);
        if width > left {
            assert(bytes_prefix(s@, max as nat) =~= s@.take(i as int));
            return substring(cs.as_slice(), 0, i);
        }
        assert(s@.skip(i as int).skip(1) =~= s@.skip(i + 1));
        assert(s@.take(i as int) + (seq![cs@[i as int]] + bytes_prefix(
            s@.skip(i + 1),
            (left - width) as nat,
        )) =~= s@.take(i + 1) + bytes_prefix(s@.skip(i + 1), (left - width) as nat));
        left = left - width;
        i += 1;
    }
    assert(bytes_prefix(s@, max as nat) =~= s@);
    string_of(cs.as_slice())
}

/// A text that was cut to a number of bytes is a start of the text, takes no more than these, and is
/// all of the text where that takes no more.
pub proof fn lemma_bytes_prefix(s: Seq<char>, max: nat)
    ensures
        bytes_prefix(s, max).is_prefix_of(s),
        vstd::utf8::encode_utf8(bytes_prefix(s, max)).len() <= max,
        vstd::utf8::encode_utf8(s).len() <= max ==> bytes_prefix(s, max) == s,
    decreases s.len(),
{
    if s.len() > 0 {
        let w = utf8_width(s[0]);
        assert(s.drop_first() =~= s.skip(1));
        if w <= max {
            lemma_bytes_prefix(s.skip(1), (max - w) as nat);
            let p = bytes_prefix(s, max);
            assert(p.drop_first() =~= bytes_prefix(s.skip(1), (max - w) as nat));
            assert(p[0] == s[0]);
            assert(s.take(p.len() as int) =~= seq![s[0]] + s.skip(1).take(p.len() - 1));
            assert(s =~= seq![s[0]] + s.skip(1));
        }
    }
}

/// The text with ASCII letters in lower case (`str::to_ascii_lowercase`).
pub fn to_ascii_lowercase(s: &str) -> (r: String)
    ensures
        r@ == ascii_lower(s@),
{
    let cs = chars_of(s);
    let mut out: Vec<char> = Vec::new();
    let mut i: usize = 0;
    while i < cs.len()
        invariant
            i <= cs@.len(),
            cs@ == s@,
            out@ == ascii_lower(s@).take(i as int),
        decreases cs@.len() - i,
    {
        out.push(to_ascii_lower_char(cs[i]));
        assert(out@ =~= ascii_lower(s@).take(i + 1));
        i += 1;
    }
    assert(ascii_lower(s@).take(cs@.len() as int) =~= ascii_lower(s@));
    string_of(out.as_slice())
}

/// What `{:?}` writes for a list of texts.
pub uninterp spec fn debug_texts(list: Seq<Seq<char>>) -> Seq<char>;

/// `format!("{:?}", ..)` of a slice of strings: the texts quoted and escaped, in brackets. What is
/// written depends on the texts alone.
#[verifier::external_body]
pub(crate) fn debug_list(list: &[String]) -> (r: String)
    ensures
        r@ == debug_texts(texts(list@)),
{
    format!("{:?}", list)
}

} // verus!

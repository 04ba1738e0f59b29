//! Which memory records matter to a query: the model's choice of catalog indices, or keyword
//! matching where the model cannot be asked.

use vstd::prelude::*;

use crate::domain::message::{user_text_v, Message};
use crate::json::{int_of, list_view, Json, JsonV};
use crate::memory::{find_json_array, found_array};
use crate::memory::storage::{entries_view, EntryV, IndexEntry};
use crate::text::{
    ascii_alphanumeric, chars_of, concat3, contains, decimal, decimal_usize, first_chars,
    is_ascii_alphanumeric, join, joined, list_contains, lowercase, owned, str_contains, str_lt,
    substring, take_chars, text_lt, texts,
};

verus! {

broadcast use vstd::string::group_string_axioms;

// ---- the model's choice ----

/// The catalog line of the entry at index `i`.
pub open spec fn catalog_line(i: nat, e: EntryV) -> Seq<char> {
    decimal(i) + ": "@ + e.name + " - "@ + e.description
}

/// The catalog of the entries: a numbered line for each.
pub open spec fn catalog_v(index: Seq<EntryV>) -> Seq<char> {
    join(Seq::new(index.len(), |i: int| catalog_line(i as nat, index[i])), "\n"@)
}

/// The question to the model.
pub open spec fn selection_prompt_v(query: Seq<char>, catalog: Seq<char>) -> Seq<char> {
    "Select memory records that are relevant to the current user request. Return only a JSON array of catalog indices, such as [0, 2]. Return [] when none are relevant.\n\nCurrent request:\n"@
        + first_chars(query, 4000) + "\n\nMemory catalog:\n"@ + first_chars(catalog, 12000)
}

/// The file names that the model's values choose: each value that is an index into the catalog
/// adds its file, once, until there are `max_items`.
pub open spec fn chosen(
    items: Seq<JsonV>,
    index: Seq<EntryV>,
    selected: Seq<Seq<char>>,
    max_items: int,
) -> Seq<Seq<char>>
    decreases items.len(),
{
    if items.len() == 0 {
        selected
    } else {
        match int_of(items[0]) {
            Some(i) => if 0 <= i < index.len() {
                let file = index[i as int].filename;
                let next = if selected.contains(file) {
                    selected
                } else {
                    selected.push(file)
                };
                if next.len() == max_items {
                    next
                } else {
                    chosen(items.skip(1), index, next, max_items)
                }
            } else {
                chosen(items.skip(1), index, selected, max_items)
            },
            None => chosen(items.skip(1), index, selected, max_items),
        }
    }
}

/// Default retrieval: the model selects, keywords are the fallback.
pub struct ModelKeywordRetrieval;

impl ModelKeywordRetrieval {
    pub fn new() -> (r: Self) {
        ModelKeywordRetrieval
    }

    /// The request to the model, where there is a catalog and a query.
    pub fn request(index: &[IndexEntry], query: &str) -> (r: Option<Message>)
        ensures
            if index@.len() == 0 || query@.len() == 0 {
                r is None
            } else {
                r matches Some(m) && m@ == user_text_v(
                    selection_prompt_v(query@, catalog_v(entries_view(index@))),
                )
            },
    {
        if index.len() == 0 || query.is_empty() {
            return None;
        }
        let mut ls: Vec<String> = Vec::new();
        let mut i: usize = 0;
        let ghost all = entries_view(index@);
        while i < index.len()
            invariant
                i <= index@.len(),
                all == entries_view(index@),
                ls@.len() == i,
                forall|k: int| 0 <= k < i ==> (#[trigger] ls@[k])@ == catalog_line(k as nat, all[k]),
            decreases index@.len() - i,
        {
            let e = &index[i];
            let mut line = concat3(decimal_usize(i).as_str(), ": ", e.name.as_str());
            line.append(" - ");
            line.append(e.description.as_str());
            ls.push(line);
            i = i + 1;
        }
        assert(texts(ls@) =~= Seq::new(all.len(), |i: int| catalog_line(i as nat, all[i])));
        let catalog = joined(&ls, "\n");
        let mut prompt = owned(
            "Select memory records that are relevant to the current user request. Return only a JSON array of catalog indices, such as [0, 2]. Return [] when none are relevant.\n\nCurrent request:\n",
        );
        prompt.append(take_chars(query, 4000).as_str());
        prompt.append("\n\nMemory catalog:\n");
        prompt.append(take_chars(catalog.as_str(), 12000).as_str());
        Some(Message::user_text(prompt.as_str()))
    }

    /// The file names that the model's values choose.
    pub fn select(items: &[Json], index: &[IndexEntry], max_items: usize) -> (r: Vec<String>)
        ensures
            texts(r@) == chosen(
                list_view(items@),
                entries_view(index@),
                Seq::empty(),
                max_items as int,
            ),
    {
        let mut selected: Vec<String> = Vec::new();
        let mut k: usize = 0;
        let ghost all = list_view(items@);
        let ghost entries = entries_view(index@);
        proof {
            crate::json::lemma_list_view(items@);
            assert(all.skip(0) =~= all);
            assert(texts(selected@) =~= Seq::empty());
        }
        while k < items.len()
            invariant
                k <= items@.len(),
                all == list_view(items@),
                all.len() == items@.len(),
                forall|j: int| 0 <= j < items@.len() ==> (#[trigger] all[j]) == items@[j]@,
                entries == entries_view(index@),
                chosen(all, entries, Seq::empty(), max_items as int) == chosen(
                    all.skip(k as int),
                    entries,
                    texts(selected@),
                    max_items as int,
                ),
            decreases items@.len() - k,
        {
            assert(all.skip(k as int)[0] == items@[k as int]@);
            assert(all.skip(k as int).skip(1) =~= all.skip(k + 1));
            let ghost before = texts(selected@);
            if let Some(v) = items[k].as_i64() {
                if v >= 0 && (v as u64) < index.len() as u64 {
                    let i: usize = v as usize;
                    let filename = index[i].filename.clone();
                    assert(entries[i as int].filename == filename@);
                    if !list_contains(&selected, filename.as_str()) {
                        selected.push(filename);
                        assert(texts(selected@) =~= before.push(filename@));
                    }
                    if selected.len() == max_items {
                        return selected;
                    }
                }
            }
            k = k + 1;
        }
        selected
    }
}

// ---- keywords ----

/// What a character counts as: 1 in an ASCII word, 2 in CJK text, 0 in neither.
pub open spec fn char_kind(c: char) -> int {
    if ascii_alphanumeric(c) || c == '_' {
        1
    } else if 0x4E00 <= c as u32 <= 0x9FFF {
        2
    } else {
        0
    }
}

/// How many characters of kind `kind` the text begins with.
pub open spec fn run_len(s: Seq<char>, kind: int) -> nat
    decreases s.len(),
{
    if s.len() == 0 || char_kind(s[0]) != kind {
        0
    } else {
        1 + run_len(s.skip(1), kind)
    }
}

proof fn lemma_run_len(s: Seq<char>, kind: int)
    ensures
        run_len(s, kind) <= s.len(),
    decreases s.len(),
{
    if s.len() > 0 && char_kind(s[0]) == kind {
        lemma_run_len(s.skip(1), kind);
    }
}

/// A run long enough to be a token: three for ASCII words, two for CJK text.
pub open spec fn token_run(kind: int, n: int) -> bool {
    (kind == 1 && n >= 3) || (kind == 2 && n >= 2)
}

/// The tokens of the text: its maximal runs of one kind that are long enough, in order.
pub open spec fn tokens(s: Seq<char>) -> Seq<Seq<char>>
    decreases s.len(),
    via tokens_decreases
{
    if s.len() == 0 {
        Seq::empty()
    } else {
        let kind = char_kind(s[0]);
        let n = run_len(s, kind) as int;
        if token_run(kind, n) {
            seq![s.take(n)] + tokens(s.skip(n))
        } else {
            tokens(s.skip(n))
        }
    }
}

#[via_fn]
proof fn tokens_decreases(s: Seq<char>) {
    if s.len() > 0 {
        lemma_run_len(s, char_kind(s[0]));
    }
}

fn kind_of(c: char) -> (r: u8)
    ensures
        r == char_kind(c),
{
    let u: u32 = c as u32;
    if is_ascii_alphanumeric(c) || c == '_' {
        1
    } else if 0x4E00 <= u && u <= 0x9FFF {
        2
    } else {
        0
    }
}

/// Keyword tokens of the query: ASCII words of at least 3 characters and CJK runs of at least 2, in
/// lower case.
pub fn tokenize_query(query: &str) -> (r: Vec<String>)
    ensures
        texts(r@) == tokens(lowercase(query@)),
{
    let lower = query.to_lowercase();
    let cs = chars_of(lower.as_str());
    let mut out: Vec<String> = Vec::new();
    let mut i: usize = 0;
    assert(cs@.skip(0) =~= cs@);
    assert(texts(out@) + tokens(cs@) =~= tokens(cs@));
    while i < cs.len()
        invariant
            i <= cs@.len(),
            texts(out@) + tokens(cs@.skip(i as int)) == tokens(cs@),
        decreases cs@.len() - i,
    {
        let ghost rest = cs@.skip(i as int);
        let ghost before = texts(out@);
        let kind = kind_of(cs[i]);
        let mut end: usize = i;
        while end < cs.len() && kind_of(cs[end]) == kind
            invariant
                i <= end <= cs@.len(),
                rest == cs@.skip(i as int),
                run_len(rest, kind as int) == (end - i) + run_len(cs@.skip(end as int), kind as int),
            decreases cs@.len() - end,
        {
            assert(cs@.skip(end as int).skip(1) =~= cs@.skip(end + 1));
            end = end + 1;
        }
        assert(run_len(rest, kind as int) == end - i);
        assert(end > i) by {
            assert(rest[0] == cs@[i as int]);
        }
        assert(rest.skip(end - i) =~= cs@.skip(end as int));
        let n: usize = end - i;
        if (kind == 1 && n >= 3) || (kind == 2 && n >= 2) {
            let token = substring(&cs, i, end);
            assert(token@ =~= rest.take(end - i));
            assert(texts(out@.push(token)) =~= before.push(token@));
            assert(before.push(token@) + tokens(cs@.skip(end as int)) =~= before + tokens(rest));
            out.push(token);
        }
        i = end;
    }
    assert(tokens(cs@.skip(i as int)) =~= Seq::<Seq<char>>::empty());
    assert(texts(out@) =~= tokens(cs@));
    out
}

/// How many different words of the list stand in the text.
pub open spec fn hits(words: Seq<Seq<char>>, text: Seq<char>) -> nat
    decreases words.len(),
{
    if words.len() == 0 {
        0
    } else {
        let w = words.last();
        hits(words.drop_last(), text) + if !words.drop_last().contains(w) && contains(text, w) {
            1nat
        } else {
            0nat
        }
    }
}

/// The scores and file names.
pub open spec fn ranked_view(s: Seq<(usize, String)>) -> Seq<(usize, Seq<char>)> {
    s.map_values(|x: (usize, String)| (x.0, x.1@))
}

/// `a` ranks before `b`: a higher score, or the same and a smaller file name.
pub open spec fn ranks_before(a: (usize, Seq<char>), b: (usize, Seq<char>)) -> bool {
    a.0 > b.0 || (a.0 == b.0 && text_lt(a.1, b.1))
}

/// `x` put into a ranked list, behind those that do not rank after it.
pub open spec fn insert_ranked(s: Seq<(usize, Seq<char>)>, x: (usize, Seq<char>)) -> Seq<
    (usize, Seq<char>),
>
    decreases s.len(),
{
    if s.len() == 0 || !ranks_before(x, s.last()) {
        s.push(x)
    } else {
        insert_ranked(s.drop_last(), x).push(s.last())
    }
}

/// The score of an entry: how many query words stand in its name and description.
pub open spec fn entry_score(words: Seq<Seq<char>>, e: EntryV) -> nat {
    hits(words, lowercase(e.name + " "@ + e.description))
}

/// The entries with a score, best first.
pub open spec fn ranking(index: Seq<EntryV>, words: Seq<Seq<char>>) -> Seq<(usize, Seq<char>)>
    decreases index.len(),
{
    if index.len() == 0 {
        Seq::empty()
    } else {
        let e = index.last();
        let score = entry_score(words, e);
        if score > 0 {
            insert_ranked(ranking(index.drop_last(), words), (score as usize, e.filename))
        } else {
            ranking(index.drop_last(), words)
        }
    }
}

/// The file names of the best entries, at most `max_items`.
pub open spec fn keyword_choice(index: Seq<EntryV>, query: Seq<char>, max_items: int) -> Seq<
    Seq<char>,
> {
    let all = ranking(index, tokens(lowercase(query)));
    let n = if max_items < all.len() {
        max_items
    } else {
        all.len() as int
    };
    Seq::new(n as nat, |i: int| all[i].1)
}

fn count_hits(words: &[String], text: &str) -> (r: usize)
    ensures
        r == hits(texts(words@), text@),
{
    let mut n: usize = 0;
    let mut i: usize = 0;
    let ghost all = texts(words@);
    while i < words.len()
        invariant
            i <= words@.len(),
            all == texts(words@),
            n == hits(all.take(i as int), text@),
            n <= i,
        decreases words@.len() - i,
    {
        assert(all.take(i + 1).drop_last() =~= all.take(i as int));
        assert(all.take(i + 1).last() == words@[i as int]@);
        let seen = vstd::slice::slice_subrange(words, 0, i);
        assert(texts(seen@) =~= all.take(i as int));
        if !list_contains(seen, words[i].as_str()) && str_contains(text, words[i].as_str()) {
            n = n + 1;
        }
        i = i + 1;
    }
    assert(all.take(words@.len() as int) =~= all);
    n
}

fn insert_by_rank(v: &mut Vec<(usize, String)>, x: (usize, String))
    ensures
        ranked_view(final(v)@) == insert_ranked(ranked_view(old(v)@), (x.0, x.1@)),
{
    let ghost s = ranked_view(v@);
    let ghost y = (x.0, x.1@);
    let mut p: usize = v.len();
    assert(s.take(p as int) =~= s);
    assert(insert_ranked(s, y) + s.skip(p as int) =~= insert_ranked(s, y));
    while p > 0 && (x.0 > v[p - 1].0 || (x.0 == v[p - 1].0 && str_lt(
        x.1.as_str(),
        v[p - 1].1.as_str(),
    )))
        invariant
            p <= v@.len(),
            s == ranked_view(v@),
            y == (x.0, x.1@),
            insert_ranked(s, y) == insert_ranked(s.take(p as int), y) + s.skip(p as int),
        decreases p,
    {
        proof {
            let t = s.take(p as int);
            assert(t.drop_last() =~= s.take(p - 1));
            assert(t.last() == s[p - 1]);
            assert(insert_ranked(s.take(p - 1), y).push(s[p - 1]) + s.skip(p as int)
                =~= insert_ranked(s.take(p - 1), y) + s.skip(p - 1));
        }
        p = p - 1;
    }
    proof {
        let t = s.take(p as int);
        if p > 0 {
            assert(t.last() == s[p - 1]);
        }
        assert(insert_ranked(t, y) == t.push(y));
    }
    v.insert(p, x);
    assert(ranked_view(v@) =~= s.take(p as int).push(y) + s.skip(p as int));
}

/// Keyword selection: rank by how many query tokens stand in name and description, best first, and
/// take the top `max_items`.
pub fn keyword_memory_selection(index: &[IndexEntry], query: &str, max_items: usize) -> (r: Vec<
    String,
>)
    ensures
        texts(r@) == keyword_choice(entries_view(index@), query@, max_items as int),
{
    let words = tokenize_query(query);
    let ghost ws = texts(words@);
    let ghost all = entries_view(index@);
    let mut ranked: Vec<(usize, String)> = Vec::new();
    let mut i: usize = 0;
    assert(ranked_view(ranked@) =~= ranking(all.take(0), ws));
    while i < index.len()
        invariant
            i <= index@.len(),
            all == entries_view(index@),
            ws == texts(words@),
            ranked_view(ranked@) == ranking(all.take(i as int), ws),
        decreases index@.len() - i,
    {
        assert(all.take(i + 1).drop_last() =~= all.take(i as int));
        assert(all.take(i + 1).last() == index@[i as int]@);
        let text = concat3(index[i].name.as_str(), " ", index[i].description.as_str());
        let lower = text.as_str().to_lowercase();
        let score = count_hits(&words, lower.as_str());
        if score > 0 {
            insert_by_rank(&mut ranked, (score, index[i].filename.clone()));
        }
        i = i + 1;
    }
    assert(all.take(index@.len() as int) =~= all);
    let ghost best = ranked_view(ranked@);
    let n: usize = if max_items < ranked.len() {
        max_items
    } else {
        ranked.len()
    };
    let mut out: Vec<String> = Vec::new();
    let mut k: usize = 0;
    while k < n
        invariant
            k <= n <= ranked@.len(),
            best == ranked_view(ranked@),
            out@.len() == k,
            forall|j: int| 0 <= j < k ==> (#[trigger] out@[j])@ == best[j].1,
        decreases n - k,
    {
        out.push(ranked[k].1.clone());
        k = k + 1;
    }
    assert(texts(out@) =~= keyword_choice(all, query@, max_items as int));
    out
}

/// No entry of a lower rank stands before one of a higher rank.
pub open spec fn best_first(s: Seq<(usize, Seq<char>)>) -> bool {
    forall|i: int, j: int| 0 <= i < j < s.len() ==> !ranks_before(#[trigger] s[j], #[trigger] s[i])
}

proof fn lemma_rank_transitive(
    a: (usize, Seq<char>),
    b: (usize, Seq<char>),
    c: (usize, Seq<char>),
)
    requires
        ranks_before(a, b),
        !ranks_before(c, b),
    ensures
        ranks_before(a, c),
{
    if a.0 == b.0 && b.0 == c.0 {
        crate::text::lemma_text_lt_total(b.1, c.1);
        if text_lt(b.1, c.1) {
            crate::text::lemma_text_lt_transitive(a.1, b.1, c.1);
        }
    }
}

proof fn lemma_rank_asymmetric(a: (usize, Seq<char>), b: (usize, Seq<char>))
    requires
        ranks_before(a, b),
    ensures
        !ranks_before(b, a),
{
    if a.0 == b.0 && text_lt(b.1, a.1) {
        crate::text::lemma_text_lt_transitive(a.1, b.1, a.1);
        crate::text::lemma_text_lt_irreflexive(a.1);
    }
}

proof fn lemma_insert_ranked(s: Seq<(usize, Seq<char>)>, x: (usize, Seq<char>))
    requires
        best_first(s),
    ensures
        best_first(insert_ranked(s, x)),
        insert_ranked(s, x).len() == s.len() + 1,
        forall|i: int|
            0 <= i < insert_ranked(s, x).len() ==> insert_ranked(s, x)[i] == x || s.contains(
                #[trigger] insert_ranked(s, x)[i],
            ),
    decreases s.len(),
{
    let r = insert_ranked(s, x);
    if s.len() == 0 {
    } else if !ranks_before(x, s.last()) {
        assert forall|i: int, j: int| 0 <= i < j < r.len() implies !ranks_before(
            #[trigger] r[j],
            #[trigger] r[i],
        ) by {
            if j == s.len() {
                if i < s.len() - 1 && ranks_before(x, s[i]) {
                    let last = s[s.len() - 1];
                    assert(!ranks_before(last, s[i]));
                    lemma_rank_transitive(x, s[i], last);
                }
            } else {
                assert(r[j] == s[j] && r[i] == s[i]);
            }
        }
        assert forall|i: int| 0 <= i < r.len() implies r[i] == x || s.contains(#[trigger] r[i]) by {
            if i < s.len() {
                assert(r[i] == s[i]);
            }
        }
    } else {
        let front = s.drop_last();
        assert(best_first(front)) by {
            assert forall|i: int, j: int| 0 <= i < j < front.len() implies !ranks_before(
                #[trigger] front[j],
                #[trigger] front[i],
            ) by {
                assert(front[j] == s[j] && front[i] == s[i]);
            }
        }
        lemma_insert_ranked(front, x);
        let mid = insert_ranked(front, x);
        assert forall|i: int| 0 <= i < r.len() implies r[i] == x || s.contains(#[trigger] r[i]) by {
            if i < mid.len() {
                assert(r[i] == mid[i]);
                if mid[i] != x {
                    let k = choose|k: int| 0 <= k < front.len() && front[k] == mid[i];
                    assert(s[k] == r[i]);
                }
            } else {
                assert(r[i] == s[s.len() - 1]);
            }
        }
        assert forall|i: int, j: int| 0 <= i < j < r.len() implies !ranks_before(
            #[trigger] r[j],
            #[trigger] r[i],
        ) by {
            if j < mid.len() {
                assert(r[j] == mid[j] && r[i] == mid[i]);
            } else {
                assert(r[j] == s.last());
                assert(r[i] == mid[i]);
                if mid[i] == x {
                    lemma_rank_asymmetric(x, s.last());
                } else {
                    let k = choose|k: int| 0 <= k < front.len() && front[k] == mid[i];
                    assert(s[k] == mid[i]);
                    assert(!ranks_before(s[s.len() - 1], s[k]));
                }
            }
        }
    }
}

/// The ranking puts the best entries first: by score, and by file name among equals.
pub proof fn lemma_ranking_best_first(index: Seq<EntryV>, words: Seq<Seq<char>>)
    ensures
        best_first(ranking(index, words)),
        ranking(index, words).len() <= index.len(),
    decreases index.len(),
{
    if index.len() > 0 {
        let e = index.last();
        lemma_ranking_best_first(index.drop_last(), words);
        if entry_score(words, e) > 0 {
            lemma_insert_ranked(
                ranking(index.drop_last(), words),
                (entry_score(words, e) as usize, e.filename),
            );
        }
    }
}

/// The model's choice never names a file twice and never goes beyond the cap.
pub proof fn lemma_chosen(
    items: Seq<JsonV>,
    index: Seq<EntryV>,
    selected: Seq<Seq<char>>,
    max_items: int,
)
    requires
        selected.no_duplicates(),
        selected.len() < max_items,
    ensures
        chosen(items, index, selected, max_items).no_duplicates(),
        chosen(items, index, selected, max_items).len() <= max_items,
    decreases items.len(),
{
    if items.len() > 0 {
        match int_of(items[0]) {
            Some(i) => {
                if 0 <= i < index.len() {
                    let file = index[i as int].filename;
                    let next = if selected.contains(file) {
                        selected
                    } else {
                        selected.push(file)
                    };
                    assert(next.no_duplicates());
                    if next.len() != max_items {
                        lemma_chosen(items.skip(1), index, next, max_items);
                    }
                } else {
                    lemma_chosen(items.skip(1), index, selected, max_items);
                }
            },
            None => {
                lemma_chosen(items.skip(1), index, selected, max_items);
            },
        }
    }
}

// ---- the model's choice, or keywords ----

/// What is recalled, where `answer` is what the model said, if it could be asked: its choice, or a
/// choice by keywords where it gave no array to choose by. Without a catalog or a query it is nothing.
pub open spec fn recall(
    answer: Option<Seq<char>>,
    index: Seq<EntryV>,
    query: Seq<char>,
    max_items: int,
) -> Seq<Seq<char>> {
    if index.len() == 0 || query.len() == 0 {
        Seq::empty()
    } else if answer is Some && found_array(answer->0) is Some {
        chosen(found_array(answer->0)->0, index, Seq::empty(), max_items)
    } else {
        keyword_choice(index, query, max_items)
    }
}

impl ModelKeywordRetrieval {
    /// What is recalled, where `answer` is what the model said, if it could be asked.
    pub fn recalled(
        answer: Option<&str>,
        index: &[IndexEntry],
        query: &str,
        max_items: usize,
    ) -> (r: Vec<String>)
        ensures
            texts(r@) == recall(
                match answer {
                    Some(t) => Some(t@),
                    None => None,
                },
                entries_view(index@),
                query@,
                max_items as int,
            ),
    {
        if index.len() == 0 || query.is_empty() {
            let none: Vec<String> = Vec::new();
            assert(texts(none@) =~= Seq::empty());
            return none;
        }
        match answer {
            Some(t) => match find_json_array(t) {
                Some(items) => Self::select(items.as_slice(), index, max_items),
                None => keyword_memory_selection(index, query, max_items),
            },
            None => keyword_memory_selection(index, query, max_items),
        }
    }
}

} // verus!

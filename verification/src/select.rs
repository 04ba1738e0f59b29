//! What is taken from a list: the entries that are wanted, all of them, in their order; and what a
//! text holds: its parts, whole and in their order.

use vstd::prelude::*;

use crate::text::{contains, join, occurs_at};

verus! {

/// The indices `at` are those of the wanted entries, all of them, in order.
pub open spec fn picked<A>(at: Seq<int>, all: Seq<A>, wanted: spec_fn(A) -> bool) -> bool {
    &&& forall|j: int| 0 <= j < at.len() ==> 0 <= #[trigger] at[j] < all.len()
    &&& forall|j: int| 0 <= j < at.len() ==> wanted(all[#[trigger] at[j]])
    &&& forall|i: int, j: int| 0 <= i < j < at.len() ==> #[trigger] at[i] < #[trigger] at[j]
    &&& forall|k: int| 0 <= k < all.len() && wanted(#[trigger] all[k]) ==> at.contains(k)
}

/// `out` has one entry for each wanted entry of `all` and no other, in the same order: what `made`
/// makes of it.
pub open spec fn selects<A, B>(
    all: Seq<A>,
    out: Seq<B>,
    wanted: spec_fn(A) -> bool,
    made: spec_fn(A) -> B,
) -> bool {
    exists|at: Seq<int>| #[trigger]
        picked(at, all, wanted) && out.len() == at.len() && forall|j: int|
            0 <= j < at.len() ==> #[trigger] out[j] == made(all[at[j]])
}

/// Nothing is selected from nothing.
pub proof fn lemma_selects_nothing<A, B>(wanted: spec_fn(A) -> bool, made: spec_fn(A) -> B)
    ensures
        selects(Seq::<A>::empty(), Seq::<B>::empty(), wanted, made),
{
    assert(picked(Seq::<int>::empty(), Seq::<A>::empty(), wanted));
}

/// One more entry is selected where it is wanted, and leaves the selection as it is where it is not.
pub proof fn lemma_selects_push<A, B>(
    all: Seq<A>,
    out: Seq<B>,
    wanted: spec_fn(A) -> bool,
    made: spec_fn(A) -> B,
    x: A,
)
    requires
        selects(all, out, wanted, made),
    ensures
        wanted(x) ==> selects(all.push(x), out.push(made(x)), wanted, made),
        !wanted(x) ==> selects(all.push(x), out, wanted, made),
{
    let at = choose|at: Seq<int>| #[trigger]
        picked(at, all, wanted) && out.len() == at.len() && forall|j: int|
            0 <= j < at.len() ==> #[trigger] out[j] == made(all[at[j]]);
    let n = all.len() as int;
    let more = all.push(x);
    if wanted(x) {
        let to = at.push(n);
        assert forall|k: int| 0 <= k < more.len() && wanted(#[trigger] more[k]) implies to.contains(
            k,
        ) by {
            if k < n {
                assert(more[k] == all[k]);
                let j = choose|j: int| 0 <= j < at.len() && at[j] == k;
                assert(to[j] == k);
            } else {
                assert(to[at.len() as int] == k);
            }
        }
        assert forall|j: int| 0 <= j < to.len() implies wanted(more[#[trigger] to[j]]) by {
            if j < at.len() {
                assert(to[j] == at[j]);
                assert(more[at[j]] == all[at[j]]);
            }
        }
        assert(picked(to, more, wanted));
        let made_of = out.push(made(x));
        assert forall|j: int| 0 <= j < to.len() implies #[trigger] made_of[j] == made(more[to[j]]) by {
            if j < at.len() {
                assert(made_of[j] == out[j]);
                assert(more[at[j]] == all[at[j]]);
            }
        }
    } else {
        assert forall|k: int| 0 <= k < more.len() && wanted(#[trigger] more[k]) implies at.contains(
            k,
        ) by {
            assert(more[k] == all[k]);
        }
        assert forall|j: int| 0 <= j < at.len() implies wanted(more[#[trigger] at[j]]) by {
            assert(more[at[j]] == all[at[j]]);
        }
        assert(picked(at, more, wanted));
        assert forall|j: int| 0 <= j < at.len() implies #[trigger] out[j] == made(more[at[j]]) by {
            assert(more[at[j]] == all[at[j]]);
        }
    }
}

/// One more entry in front is selected where it is wanted, and leaves the selection as it is where it
/// is not.
pub proof fn lemma_selects_front<A, B>(
    all: Seq<A>,
    out: Seq<B>,
    wanted: spec_fn(A) -> bool,
    made: spec_fn(A) -> B,
    x: A,
)
    requires
        selects(all, out, wanted, made),
    ensures
        wanted(x) ==> selects(seq![x] + all, seq![made(x)] + out, wanted, made),
        !wanted(x) ==> selects(seq![x] + all, out, wanted, made),
{
    let at = choose|at: Seq<int>| #[trigger]
        picked(at, all, wanted) && out.len() == at.len() && forall|j: int|
            0 <= j < at.len() ==> #[trigger] out[j] == made(all[at[j]]);
    let more = seq![x] + all;
    let moved = at.map_values(|i: int| i + 1);
    let to = if wanted(x) {
        seq![0int] + moved
    } else {
        moved
    };
    let first: int = if wanted(x) {
        1
    } else {
        0
    };
    assert forall|j: int| 0 <= j < to.len() implies 0 <= #[trigger] to[j] < more.len() && wanted(
        more[to[j]],
    ) by {
        if j >= first {
            assert(to[j] == at[j - first] + 1);
            assert(more[to[j]] == all[at[j - first]]);
        }
    }
    assert forall|i: int, j: int| 0 <= i < j < to.len() implies #[trigger] to[i] < #[trigger] to[j] by {
        assert(to[j] == at[j - first] + 1);
        if i >= first {
            assert(to[i] == at[i - first] + 1);
        }
    }
    assert forall|k: int| 0 <= k < more.len() && wanted(#[trigger] more[k]) implies to.contains(
        k,
    ) by {
        if k == 0 {
            assert(to[0] == 0);
        } else {
            assert(more[k] == all[k - 1]);
            let j = choose|j: int| 0 <= j < at.len() && at[j] == k - 1;
            assert(to[j + first] == k);
        }
    }
    assert(picked(to, more, wanted));
    let made_of = if wanted(x) {
        seq![made(x)] + out
    } else {
        out
    };
    assert forall|j: int| 0 <= j < to.len() implies #[trigger] made_of[j] == made(more[to[j]]) by {
        if j >= first {
            assert(made_of[j] == out[j - first]);
            assert(more[to[j]] == all[at[j - first]]);
        }
    }
}

/// Every wanted entry is there.
pub proof fn lemma_selects_each<A, B>(
    all: Seq<A>,
    out: Seq<B>,
    wanted: spec_fn(A) -> bool,
    made: spec_fn(A) -> B,
)
    requires
        selects(all, out, wanted, made),
    ensures
        forall|k: int|
            0 <= k < all.len() && wanted(#[trigger] all[k]) ==> out.contains(made(all[k])),
{
    let at = choose|at: Seq<int>| #[trigger]
        picked(at, all, wanted) && out.len() == at.len() && forall|j: int|
            0 <= j < at.len() ==> #[trigger] out[j] == made(all[at[j]]);
    assert forall|k: int| 0 <= k < all.len() && wanted(#[trigger] all[k]) implies out.contains(
        made(all[k]),
    ) by {
        let j = choose|j: int| 0 <= j < at.len() && at[j] == k;
        assert(out[j] == made(all[at[j]]));
    }
}

/// Something is selected where something is wanted.
pub proof fn lemma_selects_some<A, B>(
    all: Seq<A>,
    out: Seq<B>,
    wanted: spec_fn(A) -> bool,
    made: spec_fn(A) -> B,
)
    requires
        selects(all, out, wanted, made),
    ensures
        out.len() > 0 <==> exists|k: int| 0 <= k < all.len() && wanted(#[trigger] all[k]),
{
    let at = choose|at: Seq<int>| #[trigger]
        picked(at, all, wanted) && out.len() == at.len() && forall|j: int|
            0 <= j < at.len() ==> #[trigger] out[j] == made(all[at[j]]);
    if out.len() > 0 {
        assert(wanted(all[at[0]]));
    }
    if exists|k: int| 0 <= k < all.len() && wanted(#[trigger] all[k]) {
        let k = choose|k: int| 0 <= k < all.len() && wanted(#[trigger] all[k]);
        assert(at.contains(k));
    }
}

/// An entry comes from a wanted one.
pub proof fn lemma_selects_from<A, B>(
    all: Seq<A>,
    out: Seq<B>,
    wanted: spec_fn(A) -> bool,
    made: spec_fn(A) -> B,
    j: int,
) -> (k: int)
    requires
        selects(all, out, wanted, made),
        0 <= j < out.len(),
    ensures
        0 <= k < all.len(),
        wanted(all[k]),
        out[j] == made(all[k]),
{
    let at = choose|at: Seq<int>| #[trigger]
        picked(at, all, wanted) && out.len() == at.len() && forall|j: int|
            0 <= j < at.len() ==> #[trigger] out[j] == made(all[at[j]]);
    assert(wanted(all[at[j]]));
    assert(out[j] == made(all[at[j]]));
    at[j]
}

/// The parts stand in `whole` at the places `at`, one behind the other.
pub open spec fn laid(at: Seq<int>, whole: Seq<char>, parts: Seq<Seq<char>>) -> bool {
    &&& at.len() == parts.len()
    &&& forall|j: int| 0 <= j < parts.len() ==> occurs_at(whole, #[trigger] parts[j], at[j])
    &&& forall|i: int, j: int|
        0 <= i < j < parts.len() ==> #[trigger] at[i] + parts[i].len() <= #[trigger] at[j]
}

/// The text holds every part whole, one behind the other.
pub open spec fn holds(whole: Seq<char>, parts: Seq<Seq<char>>) -> bool {
    exists|at: Seq<int>| laid(at, whole, parts)
}

/// Any text holds no parts.
pub proof fn lemma_holds_nothing(whole: Seq<char>)
    ensures
        holds(whole, Seq::empty()),
{
    assert(laid(Seq::empty(), whole, Seq::empty()));
}

/// What stands behind the last part may be another part.
pub proof fn lemma_holds_next(
    whole: Seq<char>,
    parts: Seq<Seq<char>>,
    between: Seq<char>,
    part: Seq<char>,
)
    requires
        holds(whole, parts),
    ensures
        holds(whole + between + part, parts.push(part)),
{
    let at = choose|at: Seq<int>| laid(at, whole, parts);
    let n = (whole.len() + between.len()) as int;
    let to = at.push(n);
    let more = whole + between + part;
    let all = parts.push(part);
    assert forall|j: int| 0 <= j < all.len() implies occurs_at(more, #[trigger] all[j], to[j]) by {
        if j < parts.len() {
            assert(occurs_at(whole, parts[j], at[j]));
            assert(more.subrange(at[j], at[j] + parts[j].len()) =~= whole.subrange(
                at[j],
                at[j] + parts[j].len(),
            ));
        } else {
            assert(more.subrange(n, n + part.len()) =~= part);
        }
    }
    assert forall|i: int, j: int| 0 <= i < j < all.len() implies #[trigger] to[i] + all[i].len()
        <= #[trigger] to[j] by {
        assert(occurs_at(whole, parts[i], at[i]));
    }
    assert(laid(to, more, all));
}

/// Text around the whole leaves the parts in it.
pub proof fn lemma_holds_within(
    before: Seq<char>,
    whole: Seq<char>,
    after: Seq<char>,
    parts: Seq<Seq<char>>,
)
    requires
        holds(whole, parts),
    ensures
        holds(before + whole + after, parts),
{
    let at = choose|at: Seq<int>| laid(at, whole, parts);
    let n = before.len() as int;
    let to = at.map_values(|i: int| i + n);
    let more = before + whole + after;
    assert forall|j: int| 0 <= j < parts.len() implies occurs_at(more, #[trigger] parts[j], to[j]) by {
        assert(occurs_at(whole, parts[j], at[j]));
        assert(more.subrange(to[j], to[j] + parts[j].len()) =~= whole.subrange(
            at[j],
            at[j] + parts[j].len(),
        ));
    }
    assert forall|i: int, j: int| 0 <= i < j < parts.len() implies #[trigger] to[i] + parts[i].len()
        <= #[trigger] to[j] by {
        assert(at[i] + parts[i].len() <= at[j]);
    }
    assert(laid(to, more, parts));
}

/// A text in front of the whole is held in front of its parts.
pub proof fn lemma_holds_behind(
    first: Seq<char>,
    between: Seq<char>,
    whole: Seq<char>,
    parts: Seq<Seq<char>>,
)
    requires
        holds(whole, parts),
    ensures
        holds(first + between + whole, seq![first] + parts),
{
    let at = choose|at: Seq<int>| laid(at, whole, parts);
    let n = (first.len() + between.len()) as int;
    let to = seq![0int] + at.map_values(|i: int| i + n);
    let more = first + between + whole;
    let all = seq![first] + parts;
    assert forall|j: int| 0 <= j < all.len() implies occurs_at(more, #[trigger] all[j], to[j]) by {
        if j == 0 {
            assert(more.subrange(0, first.len() as int) =~= first);
        } else {
            assert(all[j] == parts[j - 1]);
            assert(occurs_at(whole, parts[j - 1], at[j - 1]));
            assert(more.subrange(to[j], to[j] + all[j].len()) =~= whole.subrange(
                at[j - 1],
                at[j - 1] + parts[j - 1].len(),
            ));
        }
    }
    assert forall|i: int, j: int| 0 <= i < j < all.len() implies #[trigger] to[i] + all[i].len()
        <= #[trigger] to[j] by {
        assert(occurs_at(whole, parts[j - 1], at[j - 1]));
        if i > 0 {
            assert(at[i - 1] + parts[i - 1].len() <= at[j - 1]);
        }
    }
    assert(laid(to, more, all));
}

/// The later parts are held too.
pub proof fn lemma_holds_rest(whole: Seq<char>, parts: Seq<Seq<char>>, n: int)
    requires
        holds(whole, parts),
        0 <= n <= parts.len(),
    ensures
        holds(whole, parts.skip(n)),
{
    let at = choose|at: Seq<int>| laid(at, whole, parts);
    let to = at.skip(n);
    let rest = parts.skip(n);
    assert forall|j: int| 0 <= j < rest.len() implies occurs_at(whole, #[trigger] rest[j], to[j]) by {
        assert(rest[j] == parts[j + n]);
    }
    assert(laid(to, whole, rest));
}

/// Two parts behind texts of any kind.
pub proof fn lemma_holds_two(a: Seq<char>, x: Seq<char>, b: Seq<char>, y: Seq<char>, c: Seq<char>)
    ensures
        holds(a + x + b + y + c, seq![x, y]),
{
    let none = Seq::<Seq<char>>::empty();
    lemma_holds_nothing(Seq::empty());
    lemma_holds_next(Seq::empty(), none, a, x);
    let t1 = Seq::<char>::empty() + a + x;
    lemma_holds_next(t1, none.push(x), b, y);
    let t2 = t1 + b + y;
    lemma_holds_within(Seq::empty(), t2, c, none.push(x).push(y));
    assert(none.push(x).push(y) =~= seq![x, y]);
    assert(Seq::<char>::empty() + t2 + c =~= a + x + b + y + c);
}

/// Three parts behind texts of any kind.
pub proof fn lemma_holds_three(
    a: Seq<char>,
    x: Seq<char>,
    b: Seq<char>,
    y: Seq<char>,
    c: Seq<char>,
    z: Seq<char>,
    d: Seq<char>,
)
    ensures
        holds(a + x + b + y + c + z + d, seq![x, y, z]),
{
    lemma_holds_two(a, x, b, y, Seq::empty());
    let t2 = a + x + b + y + Seq::<char>::empty();
    lemma_holds_next(t2, seq![x, y], c, z);
    let t3 = t2 + c + z;
    lemma_holds_within(Seq::empty(), t3, d, seq![x, y].push(z));
    assert(seq![x, y].push(z) =~= seq![x, y, z]);
    assert(Seq::<char>::empty() + t3 + d =~= a + x + b + y + c + z + d);
}

/// A text holds itself.
pub proof fn lemma_holds_itself(part: Seq<char>)
    ensures
        holds(part, seq![part]),
{
    lemma_holds_nothing(Seq::empty());
    lemma_holds_next(Seq::empty(), Seq::empty(), Seq::empty(), part);
    assert(Seq::<char>::empty() + Seq::<char>::empty() + part =~= part);
    assert(Seq::<Seq<char>>::empty().push(part) =~= seq![part]);
}

/// Joined parts are all there, whole and in order.
pub proof fn lemma_holds_joined(parts: Seq<Seq<char>>, sep: Seq<char>)
    ensures
        holds(join(parts, sep), parts),
    decreases parts.len(),
{
    if parts.len() == 0 {
        lemma_holds_nothing(join(parts, sep));
        assert(parts =~= Seq::<Seq<char>>::empty());
    } else if parts.len() == 1 {
        lemma_holds_itself(parts[0]);
        assert(parts =~= seq![parts[0]]);
    } else {
        lemma_holds_joined(parts.drop_last(), sep);
        lemma_holds_next(join(parts.drop_last(), sep), parts.drop_last(), sep, parts.last());
        assert(parts.drop_last().push(parts.last()) =~= parts);
    }
}

/// Each part that a text holds stands in it.
pub proof fn lemma_holds_each(whole: Seq<char>, parts: Seq<Seq<char>>, j: int)
    requires
        holds(whole, parts),
        0 <= j < parts.len(),
    ensures
        contains(whole, parts[j]),
{
    let at = choose|at: Seq<int>| laid(at, whole, parts);
    assert(occurs_at(whole, parts[j], at[j]));
}

} // verus!

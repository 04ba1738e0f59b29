//! What the budget of a batch of tool outputs moves to files, and what it leaves.

use vstd::prelude::*;

use crate::compact::{
    budget, budget_files, budget_run, budgeted, by_size, insert_by_size, lemma_by_size,
    output_content, output_file, output_id, persisted, sized_outputs, total_size,
    LARGE_RESULT_CHAR_LIMIT, TOOL_OUTPUT_BATCH_CHAR_LIMIT,
};
use crate::domain::message::{BlockV, MessageV, Role};
use crate::text::byte_len;

verus! {

/// The entries of the order are outputs of the blocks, each with its size, and no two are the same
/// output.
spec fn fits(order: Seq<(usize, usize)>, blocks: Seq<BlockV>) -> bool {
    &&& forall|i: int|
        0 <= i < order.len() ==> (#[trigger] order[i]).0 < blocks.len()
            && blocks[order[i].0 as int] is ToolOutput && byte_len(
            output_content(blocks[order[i].0 as int]),
        ) == order[i].1
    &&& forall|i: int, j: int|
        0 <= i < j < order.len() ==> (#[trigger] order[i]).0 != (#[trigger] order[j]).0
}

/// The output at `k` was moved: a shorter text stands for it under the same identifier, and where
/// files can be kept one keeps the whole of it.
pub open spec fn moved(
    before: Seq<BlockV>,
    after: Seq<BlockV>,
    files: Seq<(Seq<char>, Seq<char>)>,
    dir: Seq<char>,
    dir_ready: bool,
    k: int,
) -> bool {
    let id = output_id(before[k]);
    let full = output_content(before[k]);
    &&& before[k] is ToolOutput
    &&& byte_len(full) > LARGE_RESULT_CHAR_LIMIT
    &&& after[k] == (BlockV::ToolOutput {
        call_id: id,
        content: persisted(dir, dir_ready, id, full),
    })
    &&& dir_ready ==> files.contains((output_file(id), full))
}

proof fn lemma_run(
    blocks: Seq<BlockV>,
    order: Seq<(usize, usize)>,
    total: int,
    dir: Seq<char>,
    dir_ready: bool,
) -> (n: int)
    requires
        fits(order, blocks),
    ensures
        ({
            let out = budget_run(blocks, order, total, dir, dir_ready);
            &&& 0 <= n <= order.len()
            &&& out.blocks.len() == blocks.len()
            &&& forall|i: int|
                0 <= i < n && (#[trigger] order[i]).1 > LARGE_RESULT_CHAR_LIMIT ==> moved(
                    blocks,
                    out.blocks,
                    out.files,
                    dir,
                    dir_ready,
                    order[i].0 as int,
                )
            &&& forall|k: int|
                0 <= k < blocks.len() && (forall|i: int|
                    0 <= i < n && (#[trigger] order[i]).1 > LARGE_RESULT_CHAR_LIMIT ==> order[i].0
                        != k) ==> #[trigger] out.blocks[k] == blocks[k]
            &&& n < order.len() ==> total_left(blocks, out.blocks, order, total)
                <= TOOL_OUTPUT_BATCH_CHAR_LIMIT
            &&& total <= TOOL_OUTPUT_BATCH_CHAR_LIMIT ==> n == 0 && out.files.len() == 0
            &&& !dir_ready ==> out.files.len() == 0
        }),
    decreases order.len(),
{
    let out = budget_run(blocks, order, total, dir, dir_ready);
    if order.len() == 0 || total <= TOOL_OUTPUT_BATCH_CHAR_LIMIT {
        lemma_nothing_left(blocks, order, total);
        0
    } else {
        let rest = order.skip(1);
        let i0 = order[0].0 as int;
        assert forall|i: int| 0 <= i < rest.len() implies #[trigger] rest[i] == order[i + 1] by {}
        if order[0].1 <= LARGE_RESULT_CHAR_LIMIT {
            let n = lemma_run(blocks, rest, total, dir, dir_ready);
            assert forall|i: int| 0 <= i < n + 1 && (#[trigger] order[i]).1
                > LARGE_RESULT_CHAR_LIMIT implies moved(
                blocks,
                out.blocks,
                out.files,
                dir,
                dir_ready,
                order[i].0 as int,
            ) by {
                assert(rest[i - 1] == order[i]);
            }
            assert forall|k: int| 0 <= k < blocks.len() && (forall|i: int|
                0 <= i < n + 1 && (#[trigger] order[i]).1 > LARGE_RESULT_CHAR_LIMIT ==> order[i].0
                    != k) implies #[trigger] out.blocks[k] == blocks[k] by {
                assert forall|i: int| 0 <= i < n && (#[trigger] rest[i]).1
                    > LARGE_RESULT_CHAR_LIMIT implies rest[i].0 != k by {
                    assert(order[i + 1] == rest[i]);
                }
            }
            assert(out.blocks[i0] == blocks[i0]) by {
                assert forall|i: int| 0 <= i < n && (#[trigger] rest[i]).1
                    > LARGE_RESULT_CHAR_LIMIT implies rest[i].0 != i0 by {
                    assert(order[0].0 != order[i + 1].0);
                }
            }
            n + 1
        } else {
            let id = output_id(blocks[i0]);
            let full = output_content(blocks[i0]);
            let kept = persisted(dir, dir_ready, id, full);
            let next = blocks.update(i0, BlockV::ToolOutput { call_id: id, content: kept });
            let less = total - order[0].1 + byte_len(kept);
            assert forall|i: int| 0 <= i < rest.len() implies (#[trigger] rest[i]).0 < next.len()
                && next[rest[i].0 as int] is ToolOutput && byte_len(
                output_content(next[rest[i].0 as int]),
            ) == rest[i].1 by {
                assert(order[0].0 != order[i + 1].0);
            }
            let n = lemma_run(next, rest, less, dir, dir_ready);
            let later = budget_run(next, rest, less, dir, dir_ready);
            assert(out.blocks == later.blocks);
            assert(later.blocks[i0] == next[i0]) by {
                assert forall|i: int| 0 <= i < n && (#[trigger] rest[i]).1
                    > LARGE_RESULT_CHAR_LIMIT implies rest[i].0 != i0 by {
                    assert(order[0].0 != order[i + 1].0);
                }
            }
            assert forall|i: int| 0 <= i < n + 1 && (#[trigger] order[i]).1
                > LARGE_RESULT_CHAR_LIMIT implies moved(
                blocks,
                out.blocks,
                out.files,
                dir,
                dir_ready,
                order[i].0 as int,
            ) by {
                if i == 0 {
                    if dir_ready {
                        assert(out.files[0] == (output_file(id), full));
                    }
                } else {
                    assert(rest[i - 1] == order[i]);
                    assert(order[0].0 != order[i].0);
                    let k = order[i].0 as int;
                    assert(next[k] == blocks[k]);
                    if dir_ready {
                        let f = (output_file(output_id(blocks[k])), output_content(blocks[k]));
                        let j = choose|j: int| 0 <= j < later.files.len() && later.files[j] == f;
                        assert(out.files[j + 1] == f);
                    }
                }
            }
            assert forall|k: int| 0 <= k < blocks.len() && (forall|i: int|
                0 <= i < n + 1 && (#[trigger] order[i]).1 > LARGE_RESULT_CHAR_LIMIT ==> order[i].0
                    != k) implies #[trigger] out.blocks[k] == blocks[k] by {
                assert(order[0].0 != k);
                assert forall|i: int| 0 <= i < n && (#[trigger] rest[i]).1
                    > LARGE_RESULT_CHAR_LIMIT implies rest[i].0 != k by {
                    assert(order[i + 1] == rest[i]);
                }
                assert(next[k] == blocks[k]);
            }
            lemma_left_updated(blocks, next, later.blocks, order, total);
            n + 1
        }
    }
}

/// How large the outputs of the order are after, where they were `total` before.
spec fn total_left(
    before: Seq<BlockV>,
    after: Seq<BlockV>,
    order: Seq<(usize, usize)>,
    total: int,
) -> int
    decreases order.len(),
{
    if order.len() == 0 {
        total
    } else {
        let k = order[0].0 as int;
        total_left(before, after, order.skip(1), total) - byte_len(output_content(before[k]))
            + byte_len(output_content(after[k]))
    }
}

proof fn lemma_nothing_left(blocks: Seq<BlockV>, order: Seq<(usize, usize)>, total: int)
    ensures
        total_left(blocks, blocks, order, total) == total,
    decreases order.len(),
{
    if order.len() > 0 {
        lemma_nothing_left(blocks, order.skip(1), total);
    }
}

proof fn lemma_left_shift(
    before: Seq<BlockV>,
    after: Seq<BlockV>,
    order: Seq<(usize, usize)>,
    a: int,
    b: int,
)
    ensures
        total_left(before, after, order, a) - a == total_left(before, after, order, b) - b,
    decreases order.len(),
{
    if order.len() > 0 {
        lemma_left_shift(before, after, order.skip(1), a, b);
    }
}

proof fn lemma_left_same(
    a: Seq<BlockV>,
    b: Seq<BlockV>,
    after: Seq<BlockV>,
    order: Seq<(usize, usize)>,
    total: int,
)
    requires
        forall|i: int|
            0 <= i < order.len() ==> a[(#[trigger] order[i]).0 as int] == b[order[i].0 as int],
    ensures
        total_left(a, after, order, total) == total_left(b, after, order, total),
    decreases order.len(),
{
    if order.len() > 0 {
        let rest = order.skip(1);
        assert forall|i: int| 0 <= i < rest.len() implies a[(#[trigger] rest[i]).0 as int]
            == b[rest[i].0 as int] by {
            assert(rest[i] == order[i + 1]);
        }
        assert(a[order[0].0 as int] == b[order[0].0 as int]);
        lemma_left_same(a, b, after, rest, total);
    }
}

proof fn lemma_left_updated(
    before: Seq<BlockV>,
    next: Seq<BlockV>,
    after: Seq<BlockV>,
    order: Seq<(usize, usize)>,
    total: int,
)
    requires
        order.len() > 0,
        fits(order, before),
        next.len() == before.len(),
        forall|k: int|
            0 <= k < before.len() && k != order[0].0 ==> #[trigger] next[k] == before[k],
        after[order[0].0 as int] == next[order[0].0 as int],
    ensures
        ({
            let k = order[0].0 as int;
            let less = total - byte_len(output_content(before[k])) + byte_len(
                output_content(next[k]),
            );
            total_left(before, after, order, total) == total_left(
                next,
                after,
                order.skip(1),
                less,
            )
        }),
{
    let rest = order.skip(1);
    let k = order[0].0 as int;
    let less = total - byte_len(output_content(before[k])) + byte_len(output_content(next[k]));
    assert forall|i: int| 0 <= i < rest.len() implies before[(#[trigger] rest[i]).0 as int]
        == next[rest[i].0 as int] by {
        assert(rest[i] == order[i + 1]);
        assert(order[0].0 != order[i + 1].0);
    }
    lemma_left_same(before, next, after, rest, total);
    lemma_left_shift(next, after, rest, total, less);
}

proof fn lemma_sized(blocks: Seq<BlockV>)
    requires
        blocks.len() <= usize::MAX,
    ensures
        fits(sized_outputs(blocks), blocks),
        forall|k: int|
            0 <= k < blocks.len() && (#[trigger] blocks[k]) is ToolOutput ==> sized_outputs(
                blocks,
            ).contains((k as usize, byte_len(output_content(blocks[k])))),
    decreases blocks.len(),
{
    if blocks.len() > 0 {
        let front = blocks.drop_last();
        lemma_sized(front);
        let before = sized_outputs(front);
        let s = sized_outputs(blocks);
        let n = front.len() as int;
        assert forall|i: int| 0 <= i < s.len() implies (#[trigger] s[i]).0 < blocks.len()
            && blocks[s[i].0 as int] is ToolOutput && byte_len(
            output_content(blocks[s[i].0 as int]),
        ) == s[i].1 by {
            if i < before.len() {
                assert(s[i] == before[i]);
                assert(front[before[i].0 as int] == blocks[s[i].0 as int]);
            }
        }
        assert forall|i: int, j: int| 0 <= i < j < s.len() implies (#[trigger] s[i]).0 != (
        #[trigger] s[j]).0 by {
            assert(s[i] == before[i]);
            if j < before.len() {
                assert(s[j] == before[j]);
            } else {
                assert(before[i].0 < front.len());
            }
        }
        assert forall|k: int| 0 <= k < blocks.len() && (#[trigger] blocks[k]) is ToolOutput implies s.contains(
            (k as usize, byte_len(output_content(blocks[k]))),
        ) by {
            if k < n {
                assert(front[k] == blocks[k]);
                let x = (k as usize, byte_len(output_content(blocks[k])));
                let i = choose|i: int| 0 <= i < before.len() && before[i] == x;
                assert(s[i] == x);
            } else {
                assert(s[before.len() as int] == (k as usize, byte_len(output_content(blocks[k]))));
            }
        }
    }
}

/// The indices of the list differ.
spec fn distinct(s: Seq<(usize, usize)>) -> bool {
    forall|i: int, j: int| 0 <= i < j < s.len() ==> (#[trigger] s[i]).0 != (#[trigger] s[j]).0
}

proof fn lemma_insert_distinct(s: Seq<(usize, usize)>, x: (usize, usize))
    requires
        distinct(s),
        forall|i: int| 0 <= i < s.len() ==> (#[trigger] s[i]).0 != x.0,
    ensures
        distinct(insert_by_size(s, x)),
        forall|i: int|
            0 <= i < insert_by_size(s, x).len() ==> (#[trigger] insert_by_size(s, x)[i]) == x
                || s.contains(insert_by_size(s, x)[i]),
    decreases s.len(),
{
    if !(s.len() == 0 || s.last().1 >= x.1) {
        let front = s.drop_last();
        assert forall|i: int| 0 <= i < front.len() implies (#[trigger] front[i]).0 != x.0 by {
            assert(front[i] == s[i]);
        }
        lemma_insert_distinct(front, x);
        let t = insert_by_size(front, x);
        let out = insert_by_size(s, x);
        assert forall|i: int| 0 <= i < out.len() implies (#[trigger] out[i]) == x || s.contains(
            out[i],
        ) by {
            if i < t.len() {
                assert(out[i] == t[i]);
                if t[i] != x {
                    let j = choose|j: int| 0 <= j < front.len() && front[j] == t[i];
                    assert(s[j] == out[i]);
                }
            } else {
                assert(s[s.len() - 1] == out[i]);
            }
        }
        assert forall|i: int, j: int| 0 <= i < j < out.len() implies (#[trigger] out[i]).0 != (
        #[trigger] out[j]).0 by {
            assert(out[i] == t[i]);
            if j < t.len() {
                assert(out[j] == t[j]);
            } else if t[i] != x {
                let k = choose|k: int| 0 <= k < front.len() && front[k] == t[i];
                assert(s[k].0 != s[s.len() - 1].0);
            } else {
                assert(s[s.len() - 1].0 != x.0);
            }
        }
    } else {
        let out = insert_by_size(s, x);
        assert forall|i: int| 0 <= i < out.len() implies (#[trigger] out[i]) == x || s.contains(
            out[i],
        ) by {
            if i < s.len() {
                assert(s[i] == out[i]);
            }
        }
    }
}

proof fn lemma_order_distinct(s: Seq<(usize, usize)>)
    requires
        distinct(s),
    ensures
        distinct(by_size(s)),
        forall|x: (usize, usize)| #[trigger] by_size(s).contains(x) ==> s.contains(x),
        forall|x: (usize, usize)| #[trigger] s.contains(x) ==> by_size(s).contains(x),
    decreases s.len(),
{
    broadcast use vstd::seq_lib::group_to_multiset_ensures;

    lemma_by_size(s);
    assert forall|x: (usize, usize)| #[trigger] by_size(s).contains(x) implies s.contains(x) by {
        assert(by_size(s).to_multiset().count(x) > 0);
    }
    assert forall|x: (usize, usize)| #[trigger] s.contains(x) implies by_size(s).contains(x) by {
        assert(s.to_multiset().count(x) > 0);
    }
    if s.len() > 0 {
        let front = s.drop_last();
        assert forall|i: int, j: int| 0 <= i < j < front.len() implies (#[trigger] front[i]).0 != (
        #[trigger] front[j]).0 by {
            assert(front[i] == s[i] && front[j] == s[j]);
        }
        lemma_order_distinct(front);
        let t = by_size(front);
        assert forall|i: int| 0 <= i < t.len() implies (#[trigger] t[i]).0 != s.last().0 by {
            assert(t.contains(t[i]));
            let j = choose|j: int| 0 <= j < front.len() && front[j] == t[i];
            assert(s[j].0 != s[s.len() - 1].0);
        }
        lemma_insert_distinct(t, s.last());
    }
}

/// The budget of a batch loses nothing: each block stays as it is, or it is a tool output over the size
/// limit that was moved. Outputs are moved only where the batch is over its limit, the largest first,
/// and for as long as it stays over the limit.
pub proof fn lemma_budget_moves_the_largest(
    blocks: Seq<BlockV>,
    dir: Seq<char>,
    dir_ready: bool,
)
    requires
        blocks.len() <= usize::MAX,
    ensures
        ({
            let out = budget(blocks, dir, dir_ready);
            &&& out.blocks.len() == blocks.len()
            &&& forall|k: int|
                0 <= k < blocks.len() ==> #[trigger] out.blocks[k] == blocks[k] || moved(
                    blocks,
                    out.blocks,
                    out.files,
                    dir,
                    dir_ready,
                    k,
                )
            &&& total_size(by_size(sized_outputs(blocks))) <= TOOL_OUTPUT_BATCH_CHAR_LIMIT
                ==> out.blocks == blocks && out.files.len() == 0
            &&& !dir_ready ==> out.files.len() == 0
            &&& forall|j: int, k: int|
                0 <= j < blocks.len() && 0 <= k < blocks.len() && #[trigger] out.blocks[j]
                    != blocks[j] && (#[trigger] blocks[k]) is ToolOutput && byte_len(
                    output_content(blocks[k]),
                ) > byte_len(output_content(blocks[j])) ==> moved(
                    blocks,
                    out.blocks,
                    out.files,
                    dir,
                    dir_ready,
                    k,
                )
        }),
{
    let s = sized_outputs(blocks);
    let order = by_size(s);
    let out = budget(blocks, dir, dir_ready);
    lemma_sized(blocks);
    lemma_order_distinct(s);
    lemma_by_size(s);
    assert forall|i: int| 0 <= i < order.len() implies (#[trigger] order[i]).0 < blocks.len()
        && blocks[order[i].0 as int] is ToolOutput && byte_len(
        output_content(blocks[order[i].0 as int]),
    ) == order[i].1 by {
        assert(order.contains(order[i]));
        let j = choose|j: int| 0 <= j < s.len() && s[j] == order[i];
        assert(s[j].0 < blocks.len());
    }
    let n = lemma_run(blocks, order, total_size(order), dir, dir_ready);
    assert forall|k: int| 0 <= k < blocks.len() && #[trigger] out.blocks[k] != blocks[k] implies {
        &&& moved(blocks, out.blocks, out.files, dir, dir_ready, k)
        &&& exists|i: int|
            0 <= i < n && (#[trigger] order[i]).1 > LARGE_RESULT_CHAR_LIMIT && order[i].0 == k
    } by {
        let i = choose|i: int|
            0 <= i < n && (#[trigger] order[i]).1 > LARGE_RESULT_CHAR_LIMIT && order[i].0 == k;
        assert(order[i].0 == k);
    }
    assert forall|j: int, k: int| 0 <= j < blocks.len() && 0 <= k < blocks.len()
        && #[trigger] out.blocks[j] != blocks[j] && (#[trigger] blocks[k]) is ToolOutput
        && byte_len(output_content(blocks[k])) > byte_len(output_content(blocks[j])) implies moved(
        blocks,
        out.blocks,
        out.files,
        dir,
        dir_ready,
        k,
    ) by {
        let a = choose|i: int|
            0 <= i < n && (#[trigger] order[i]).1 > LARGE_RESULT_CHAR_LIMIT && order[i].0 == j;
        assert(blocks[order[a].0 as int] == blocks[j]);
        let x = (k as usize, byte_len(output_content(blocks[k])));
        assert(s.contains(x));
        assert(order.contains(x));
        let b = choose|b: int| 0 <= b < order.len() && order[b] == x;
        if b >= n {
            assert(order[a].1 >= order[b].1);
        }
        assert(order[b].0 as int == k);
    }
    if total_size(order) <= TOOL_OUTPUT_BATCH_CHAR_LIMIT {
        assert(out.blocks =~= blocks);
    }
}

/// Where an output over the size limit was left as it is, the batch is within its limit without it
/// being moved: the outputs come to no more than the limit.
pub proof fn lemma_budget_is_met(blocks: Seq<BlockV>, dir: Seq<char>, dir_ready: bool, k: int)
    requires
        blocks.len() <= usize::MAX,
        0 <= k < blocks.len(),
        blocks[k] is ToolOutput,
        byte_len(output_content(blocks[k])) > LARGE_RESULT_CHAR_LIMIT,
        !moved(
            blocks,
            budget(blocks, dir, dir_ready).blocks,
            budget(blocks, dir, dir_ready).files,
            dir,
            dir_ready,
            k,
        ),
    ensures
        total_size(sized_outputs(budget(blocks, dir, dir_ready).blocks))
            <= TOOL_OUTPUT_BATCH_CHAR_LIMIT,
{
    let s = sized_outputs(blocks);
    let order = by_size(s);
    let out = budget(blocks, dir, dir_ready);
    lemma_sized(blocks);
    lemma_order_distinct(s);
    lemma_by_size(s);
    assert forall|i: int| 0 <= i < order.len() implies (#[trigger] order[i]).0 < blocks.len()
        && blocks[order[i].0 as int] is ToolOutput && byte_len(
        output_content(blocks[order[i].0 as int]),
    ) == order[i].1 by {
        assert(order.contains(order[i]));
        let j = choose|j: int| 0 <= j < s.len() && s[j] == order[i];
        assert(s[j].0 < blocks.len());
    }
    let n = lemma_run(blocks, order, total_size(order), dir, dir_ready);
    lemma_budget_moves_the_largest(blocks, dir, dir_ready);
    let x = (k as usize, byte_len(output_content(blocks[k])));
    assert(order.contains(x));
    let b = choose|b: int| 0 <= b < order.len() && order[b] == x;
    assert(order[b].0 as int == k);
    assert(b >= n);
    assert(out.blocks.len() == blocks.len());
    assert forall|j: int| 0 <= j < blocks.len() implies (#[trigger] blocks[j] is ToolOutput)
        == (out.blocks[j] is ToolOutput) by {
        assert(out.blocks[j] == blocks[j] || moved(
            blocks,
            out.blocks,
            out.files,
            dir,
            dir_ready,
            j,
        ));
    }
    lemma_total_left(blocks, out.blocks, order);
    lemma_after_sum(blocks, out.blocks);
    lemma_sum_of_order(out.blocks, s);
    lemma_sum_of_order(out.blocks, order);
    lemma_sum_by_size(out.blocks, s);
}

/// The sizes that the outputs of the order have in the blocks, together.
spec fn sum_in(blocks: Seq<BlockV>, order: Seq<(usize, usize)>) -> int
    decreases order.len(),
{
    if order.len() == 0 {
        0
    } else {
        sum_in(blocks, order.skip(1)) + byte_len(output_content(blocks[order[0].0 as int]))
    }
}

proof fn lemma_sum_of_order(blocks: Seq<BlockV>, order: Seq<(usize, usize)>)
    ensures
        order.len() > 0 ==> sum_in(blocks, order) == sum_in(blocks, order.drop_last()) + byte_len(
            output_content(blocks[order.last().0 as int]),
        ),
    decreases order.len(),
{
    if order.len() == 1 {
        assert(order.skip(1) =~= Seq::empty());
        assert(order.drop_last() =~= Seq::empty());
    } else if order.len() > 1 {
        lemma_sum_of_order(blocks, order.skip(1));
        assert(order.skip(1).drop_last() =~= order.drop_last().skip(1));
        assert(order.skip(1).last() == order.last());
    }
}

proof fn lemma_sum_insert(blocks: Seq<BlockV>, s: Seq<(usize, usize)>, x: (usize, usize))
    ensures
        sum_in(blocks, insert_by_size(s, x)) == sum_in(blocks, s) + byte_len(
            output_content(blocks[x.0 as int]),
        ),
    decreases s.len(),
{
    let out = insert_by_size(s, x);
    if s.len() == 0 || s.last().1 >= x.1 {
        lemma_sum_of_order(blocks, out);
        assert(out.drop_last() =~= s);
    } else {
        let front = s.drop_last();
        lemma_sum_insert(blocks, front, x);
        lemma_sum_of_order(blocks, out);
        lemma_sum_of_order(blocks, s);
        assert(out.drop_last() =~= insert_by_size(front, x));
    }
}

proof fn lemma_sum_by_size(blocks: Seq<BlockV>, s: Seq<(usize, usize)>)
    ensures
        sum_in(blocks, by_size(s)) == sum_in(blocks, s),
    decreases s.len(),
{
    if s.len() > 0 {
        lemma_sum_by_size(blocks, s.drop_last());
        lemma_sum_insert(blocks, by_size(s.drop_last()), s.last());
        lemma_sum_of_order(blocks, s);
    } else {
        assert(by_size(s) =~= s);
    }
}

proof fn lemma_total_left(before: Seq<BlockV>, after: Seq<BlockV>, order: Seq<(usize, usize)>)
    requires
        fits(order, before),
    ensures
        total_left(before, after, order, total_size(order)) == sum_in(after, order),
    decreases order.len(),
{
    if order.len() > 0 {
        let rest = order.skip(1);
        assert forall|i: int| 0 <= i < rest.len() implies #[trigger] rest[i] == order[i + 1] by {}
        lemma_total_left(before, after, rest);
        lemma_left_shift(before, after, rest, total_size(order), total_size(rest));
        assert(order[0].1 == byte_len(output_content(before[order[0].0 as int])));
    }
}

proof fn lemma_after_sum(before: Seq<BlockV>, after: Seq<BlockV>)
    requires
        before.len() == after.len(),
        before.len() <= usize::MAX,
        forall|j: int|
            0 <= j < before.len() ==> (#[trigger] before[j] is ToolOutput) == (
            after[j] is ToolOutput),
    ensures
        total_size(sized_outputs(after)) == sum_in(after, sized_outputs(before)),
        forall|i: int|
            0 <= i < sized_outputs(before).len() ==> (#[trigger] sized_outputs(before)[i]).0
                < before.len(),
    decreases before.len(),
{
    if before.len() > 0 {
        let b = before.drop_last();
        let a = after.drop_last();
        assert forall|j: int| 0 <= j < b.len() implies (#[trigger] b[j] is ToolOutput) == (
        a[j] is ToolOutput) by {
            assert(b[j] == before[j] && a[j] == after[j]);
        }
        lemma_after_sum(b, a);
        let n = b.len() as int;
        lemma_sum_same(a, after, sized_outputs(b));
        assert((before[n] is ToolOutput) == (after[n] is ToolOutput));
        if before[n] is ToolOutput {
            let s = sized_outputs(before);
            lemma_sum_of_order(after, s);
            assert(s.drop_last() =~= sized_outputs(b));
            let x = (n as usize, byte_len(output_content(after[n])));
            lemma_total_pushed(sized_outputs(a), x);
        }
    }
}

proof fn lemma_sum_same(a: Seq<BlockV>, b: Seq<BlockV>, order: Seq<(usize, usize)>)
    requires
        a.len() <= b.len(),
        forall|j: int| 0 <= j < a.len() ==> #[trigger] a[j] == b[j],
        forall|i: int| 0 <= i < order.len() ==> (#[trigger] order[i]).0 < a.len(),
    ensures
        sum_in(a, order) == sum_in(b, order),
    decreases order.len(),
{
    if order.len() > 0 {
        let rest = order.skip(1);
        assert forall|i: int| 0 <= i < rest.len() implies (#[trigger] rest[i]).0 < a.len() by {
            assert(rest[i] == order[i + 1]);
        }
        lemma_sum_same(a, b, rest);
        assert(a[order[0].0 as int] == b[order[0].0 as int]);
    }
}

proof fn lemma_total_pushed(s: Seq<(usize, usize)>, x: (usize, usize))
    ensures
        total_size(s.push(x)) == total_size(s) + x.1,
    decreases s.len(),
{
    if s.len() > 0 {
        assert(s.push(x).skip(1) =~= s.skip(1).push(x));
        lemma_total_pushed(s.skip(1), x);
    } else {
        reveal_with_fuel(total_size, 2);
        assert(s.push(x).skip(1) =~= Seq::<(usize, usize)>::empty());
    }
}

/// Only the last message is kept within the budget, and only where it is the user's; every other message
/// stays, and no file is kept for it.
pub proof fn lemma_only_the_last_batch(msgs: Seq<MessageV>, dir: Seq<char>, dir_ready: bool)
    ensures
        ({
            let out = budgeted(msgs, dir, dir_ready);
            let last_is_users = msgs.len() > 0 && msgs.last().role == Role::User;
            &&& !last_is_users ==> out == msgs && budget_files(msgs, dir, dir_ready).len() == 0
            &&& last_is_users ==> {
                &&& out.len() == msgs.len()
                &&& out.drop_last() == msgs.drop_last()
                &&& out.last().role == Role::User
                &&& out.last().content == budget(msgs.last().content, dir, dir_ready).blocks
                &&& budget_files(msgs, dir, dir_ready) == budget(
                    msgs.last().content,
                    dir,
                    dir_ready,
                ).files
            }
        }),
{
    let out = budgeted(msgs, dir, dir_ready);
    if msgs.len() > 0 && msgs.last().role == Role::User {
        assert(out.drop_last() =~= msgs.drop_last());
    }
}

} // verus!

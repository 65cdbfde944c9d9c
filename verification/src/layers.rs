//! The stack of index ranges, and what it says about the buffer: the ranges
//! lie side by side, and the buffer is in order from one range to the next.

use crate::bag::{item, lemma_bag_has_index, lemma_items_in_bag, lemma_span_item_moved, span};
use crate::order::{above, coherent, least};
use vstd::prelude::*;

verus! {

/// The ranges of `work` lie side by side and cover the indices below `len`:
/// each is a pair `(lower, upper)` with `upper <= lower`, the first starts at
/// 0, each next one starts right after the one before, and the last ends at
/// `len - 1`. No range is empty.
pub open spec fn tiles(work: Seq<(usize, usize)>, len: nat) -> bool {
    &&& forall|k: int| 0 <= k < work.len() ==> (#[trigger] work[k]).1 <= work[k].0
    &&& forall|k: int| 0 < k < work.len() ==> (#[trigger] work[k]).1 == work[k - 1].0 + 1
    &&& if work.len() == 0 {
        len == 0
    } else {
        work[0].1 == 0 && work[work.len() - 1].0 + 1 == len
    }
}

/// The ranges of `work` cover the indices below `upper`.
pub open spec fn tiles_below(work: Seq<(usize, usize)>, upper: usize) -> bool {
    tiles(work, upper as nat)
}

/// The stack that a buffer of `len` elements starts with: one range over all
/// of it, or nothing for an empty buffer.
pub open spec fn whole(len: nat) -> Seq<(usize, usize)> {
    if len == 0 {
        Seq::empty()
    } else {
        seq![((len - 1) as usize, 0usize)]
    }
}

/// No item of `s` at an index from `b` on is strictly above an item at an index
/// below `b`.
pub open spec fn cut<T>(gt: spec_fn(T, T) -> bool, s: Seq<T>, b: usize) -> bool {
    forall|i: int, j: int|
        0 <= i < b <= j < s.len() ==> !above(gt, #[trigger] s[j], #[trigger] s[i])
}

/// The buffer is cut where each range of `work` starts.
pub open spec fn layered<T>(
    gt: spec_fn(T, T) -> bool,
    s: Seq<T>,
    work: Seq<(usize, usize)>,
) -> bool {
    forall|k: int| 0 <= k < work.len() ==> cut(gt, s, (#[trigger] work[k]).1)
}

/// Every range of a tiling ends below the length that it covers.
pub(crate) proof fn lemma_tiles_bound(work: Seq<(usize, usize)>, upper: usize, k: int)
    requires
        tiles_below(work, upper),
        0 <= k < work.len(),
    ensures
        work[k].1 <= work[k].0 < upper,
    decreases work.len() - k,
{
    if k + 1 < work.len() {
        lemma_tiles_bound(work, upper, k + 1);
    }
}

/// Without its top range, a tiling covers what lies below that range.
pub(crate) proof fn lemma_tiles_pop(work: Seq<(usize, usize)>, len: nat)
    requires
        tiles(work, len),
        work.len() > 0,
    ensures
        tiles_below(work.drop_last(), work.last().1),
        work.last().1 <= work.last().0,
        work.last().0 + 1 == len,
{
    let rest = work.drop_last();
    assert forall|k: int| 0 < k < rest.len() implies (#[trigger] rest[k]).1 == rest[k - 1].0
        + 1 by {
        assert(rest[k] == work[k]);
    }
    if rest.len() > 0 {
        assert(work[work.len() - 1].1 == work[work.len() - 2].0 + 1);
    }
}

/// A range that starts where a tiling ends extends it.
pub(crate) proof fn lemma_tiles_push(work: Seq<(usize, usize)>, lower: usize, upper: usize)
    requires
        tiles_below(work, upper),
        upper <= lower,
    ensures
        tiles(work.push((lower, upper)), (lower + 1) as nat),
{
    let more = work.push((lower, upper));
    assert forall|k: int| 0 < k < more.len() implies (#[trigger] more[k]).1 == more[k - 1].0
        + 1 by {
        if k < work.len() {
            assert(more[k] == work[k]);
        }
    }
}

/// Below the top range of a stack, the buffer is cut where that range starts,
/// and where each range below it starts.
pub(crate) proof fn lemma_layers_pop<T>(
    gt: spec_fn(T, T) -> bool,
    s: Seq<T>,
    work: Seq<(usize, usize)>,
)
    requires
        work.len() > 0,
        layered(gt, s, work),
    ensures
        layered(gt, s, work.drop_last()),
        cut(gt, s, work.last().1),
{
    let rest = work.drop_last();
    assert forall|k: int| 0 <= k < rest.len() implies cut(gt, s, (#[trigger] rest[k]).1) by {
        assert(rest[k] == work[k]);
    }
    assert(work.last() == work[work.len() - 1]);
}

/// A cut stays a cut when the items of a span above it change places.
pub(crate) proof fn lemma_cut_kept<T>(
    gt: spec_fn(T, T) -> bool,
    s: Seq<T>,
    t: Seq<T>,
    b: usize,
    upper: usize,
    lower: usize,
)
    requires
        cut(gt, s, b),
        b <= upper <= lower,
        lower < s.len(),
        s.len() == t.len(),
        span(s, upper, lower).to_multiset() == span(t, upper, lower).to_multiset(),
        forall|k: int| 0 <= k < s.len() && !(upper <= k <= lower) ==> t[k] == s[k],
    ensures
        cut(gt, t, b),
{
    assert forall|i: int, j: int| 0 <= i < b <= j < t.len() implies !above(
        gt,
        #[trigger] t[j],
        #[trigger] t[i],
    ) by {
        assert(t[i] == s[i]);
        if upper <= j <= lower {
            let m: int = lemma_span_item_moved(t, s, upper, lower, j);
            assert(!above(gt, s[m], s[i]));
        } else {
            assert(t[j] == s[j]);
            assert(!above(gt, s[j], s[i]));
        }
    }
}

/// The cuts of a stack stay when the items of a span above it change places.
pub(crate) proof fn lemma_layers_kept<T>(
    gt: spec_fn(T, T) -> bool,
    s: Seq<T>,
    t: Seq<T>,
    work: Seq<(usize, usize)>,
    upper: usize,
    lower: usize,
)
    requires
        layered(gt, s, work),
        tiles_below(work, upper),
        upper <= lower,
        lower < s.len(),
        s.len() == t.len(),
        span(s, upper, lower).to_multiset() == span(t, upper, lower).to_multiset(),
        forall|k: int| 0 <= k < s.len() && !(upper <= k <= lower) ==> t[k] == s[k],
    ensures
        layered(gt, t, work),
{
    assert forall|k: int| 0 <= k < work.len() implies cut(gt, t, (#[trigger] work[k]).1) by {
        lemma_tiles_bound(work, upper, k);
        lemma_cut_kept(gt, s, t, work[k].1, upper, lower);
    }
}

/// After a partition of the tail of the buffer around the item at `r`, the
/// buffer is cut at `b`: where the items that are not greater than that item
/// begin, or, where there is none, where the item itself stands.
pub(crate) proof fn lemma_cut_made<T>(
    gt: spec_fn(T, T) -> bool,
    t: Seq<T>,
    upper: usize,
    lower: usize,
    r: usize,
    b: usize,
)
    requires
        coherent(gt),
        cut(gt, t, upper),
        upper <= r <= lower,
        lower + 1 == t.len(),
        forall|k: int| upper <= k < r ==> gt(#[trigger] t[k], item(t, r)),
        forall|k: int| r < k <= lower ==> !gt(#[trigger] t[k], item(t, r)),
        r == lower ==> b == r,
        r < lower ==> b == r + 1,
    ensures
        cut(gt, t, b),
{
    let mid = item(t, r);
    assert forall|i: int, j: int| 0 <= i < b <= j < t.len() implies !above(
        gt,
        #[trigger] t[j],
        #[trigger] t[i],
    ) by {
        if i < upper {
            assert(!above(gt, t[j], t[i]));
        } else if r == lower {
            assert(t[j] == mid);
            assert(gt(t[i], mid));
        } else {
            assert(!gt(t[j], mid));
            if i < r {
                assert(gt(t[i], mid));
                if above(gt, t[j], t[i]) {
                    assert(gt(t[j], mid));
                }
            } else {
                assert(t[i] == mid);
            }
        }
    }
}

/// Where the buffer is cut at its last index, its last item is a least element.
pub(crate) proof fn lemma_tail_is_least<T>(gt: spec_fn(T, T) -> bool, s: Seq<T>, b: usize)
    requires
        b + 1 == s.len(),
        cut(gt, s, b),
    ensures
        least(gt, s.to_multiset(), s.last()),
{
    lemma_items_in_bag(s);
    assert(s.to_multiset().contains(s[s.len() - 1]));
    assert forall|y: T| s.to_multiset().contains(y) implies !above(gt, s.last(), y) by {
        let k: int = lemma_bag_has_index(s, y);
        if k < b {
            assert(!above(gt, s[s.len() - 1], s[k]));
        }
    }
}

/// The cuts of a stack stay when the last item of the buffer leaves.
pub(crate) proof fn lemma_layers_shrink<T>(
    gt: spec_fn(T, T) -> bool,
    s: Seq<T>,
    work: Seq<(usize, usize)>,
)
    requires
        s.len() > 0,
        layered(gt, s, work),
    ensures
        layered(gt, s.drop_last(), work),
{
    let t = s.drop_last();
    assert forall|k: int| 0 <= k < work.len() implies cut(gt, t, (#[trigger] work[k]).1) by {
        let b: usize = work[k].1;
        assert(cut(gt, s, b));
        assert forall|i: int, j: int| 0 <= i < b <= j < t.len() implies !above(
            gt,
            #[trigger] t[j],
            #[trigger] t[i],
        ) by {
            assert(t[j] == s[j]);
            assert(t[i] == s[i]);
        }
    }
}

} // verus!

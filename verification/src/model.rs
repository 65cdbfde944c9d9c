//! The engine step by step, as functions of the buffer and of the order: what
//! a partition makes of a range, what a pull leaves behind, and the sequence
//! in which the elements come out. They say how the elements are arranged
//! where the order itself leaves that open, so that one input has one result.

use crate::bag::{
    item, lemma_drop_last_bag, lemma_swap_keeps_bag, lemma_swap_keeps_span, span, swapped,
};
use crate::layers::{
    cut, layered, lemma_cut_kept, lemma_cut_made, lemma_layers_kept, lemma_layers_pop,
    lemma_layers_shrink, lemma_tail_is_least, lemma_tiles_pop, lemma_tiles_push, tiles,
    tiles_below,
};
use crate::order::{above, ascending, coherent, least};
use vstd::prelude::*;

verus! {

/// The midpoint of the range from `upper` to `lower`, nearer to `upper` when
/// the range holds an even number of indices.
pub open spec fn mid(lower: usize, upper: usize) -> usize {
    (upper + (lower - upper) / 2) as usize
}

/// The scan of a partition, from index `i` on: the pivot stands at `last`,
/// and each item that is greater than it changes places with the item at
/// `nextp`, which then moves on by one. The result is the buffer after the
/// scan and the index at which the items that are not greater begin.
pub open spec fn scanned<T>(
    gt: spec_fn(T, T) -> bool,
    s: Seq<T>,
    last: usize,
    i: usize,
    nextp: usize,
) -> (Seq<T>, usize)
    decreases last - i,
{
    if i >= last {
        (s, nextp)
    } else if gt(s[i as int], s[last as int]) {
        scanned(gt, swapped(s, i, nextp), last, (i + 1) as usize, (nextp + 1) as usize)
    } else {
        scanned(gt, s, last, (i + 1) as usize, nextp)
    }
}

/// The partition of the range from `upper` to `lower` around the item at `p`:
/// that item goes to the end of the range, the range is scanned, and the item
/// comes back to where the items that are not greater than it begin. The
/// result is the buffer after that, and the index of the item.
pub open spec fn partitioned<T>(
    gt: spec_fn(T, T) -> bool,
    s: Seq<T>,
    lower: usize,
    upper: usize,
    p: usize,
) -> (Seq<T>, usize) {
    if lower <= upper {
        (s, p)
    } else {
        let around = scanned(gt, swapped(s, lower, p), lower, upper, upper);
        (swapped(around.0, around.1, lower), around.1)
    }
}

/// One pull on the range from `upper` to `lower`, the tail of the buffer: the
/// range is partitioned around its midpoint until its last index is a range
/// of its own. The result is the element that comes out, the buffer without
/// it, and the stack with the ranges that were split off.
pub open spec fn qsorted<T>(
    gt: spec_fn(T, T) -> bool,
    s: Seq<T>,
    work: Seq<(usize, usize)>,
    lower: usize,
    upper: usize,
) -> (T, Seq<T>, Seq<(usize, usize)>)
    decreases lower - upper,
{
    if lower <= upper {
        (s.last(), s.drop_last(), work)
    } else {
        let (t, r) = partitioned(gt, s, lower, upper, mid(lower, upper));
        proof {
            lemma_scanned_bounds(gt, swapped(s, lower, mid(lower, upper)), lower, upper, upper);
        }
        if r == lower {
            qsorted(gt, t, work.push(((r - 1) as usize, upper)), lower, r)
        } else {
            qsorted(gt, t, work.push((r, upper)), lower, (r + 1) as usize)
        }
    }
}

/// The elements of the buffer in the order in which they come out: each pull
/// takes the top range of the stack and works on it.
pub open spec fn drained<T>(
    gt: spec_fn(T, T) -> bool,
    s: Seq<T>,
    work: Seq<(usize, usize)>,
) -> Seq<T>
    decreases s.len(),
    when tiles(work, s.len())
{
    if work.len() == 0 {
        Seq::empty()
    } else {
        let (x, t, rest) = qsorted(gt, s, work.drop_last(), work.last().0, work.last().1);
        proof {
            lemma_qsorted_shrinks(gt, s, work.drop_last(), work.last().0, work.last().1);
        }
        seq![x] + drained(gt, t, rest)
    }
}

/// The scan moves `nextp` on, and never past the pivot.
pub proof fn lemma_scanned_bounds<T>(
    gt: spec_fn(T, T) -> bool,
    s: Seq<T>,
    last: usize,
    i: usize,
    nextp: usize,
)
    requires
        nextp <= i <= last,
    ensures
        nextp <= scanned(gt, s, last, i, nextp).1 <= last,
    decreases last - i,
{
    if i < last {
        if gt(s[i as int], s[last as int]) {
            lemma_scanned_bounds(
                gt,
                swapped(s, i, nextp),
                last,
                (i + 1) as usize,
                (nextp + 1) as usize,
            );
        } else {
            lemma_scanned_bounds(gt, s, last, (i + 1) as usize, nextp);
        }
    }
}

/// One pull takes one element out of the buffer.
pub proof fn lemma_qsorted_shrinks<T>(
    gt: spec_fn(T, T) -> bool,
    s: Seq<T>,
    work: Seq<(usize, usize)>,
    lower: usize,
    upper: usize,
)
    requires
        upper <= lower,
        lower + 1 == s.len(),
    ensures
        qsorted(gt, s, work, lower, upper).1.len() + 1 == s.len(),
    decreases lower - upper,
{
    if upper < lower {
        let (t, r) = partitioned(gt, s, lower, upper, mid(lower, upper));
        lemma_partitioned_parts(gt, s, lower, upper, mid(lower, upper));
        if r == lower {
            lemma_qsorted_shrinks(gt, t, work.push(((r - 1) as usize, upper)), lower, r);
        } else {
            lemma_qsorted_shrinks(gt, t, work.push((r, upper)), lower, (r + 1) as usize);
        }
    }
}

/// What the scan has made of a range: the items up to `n` are greater than
/// the pivot at `last`, those from `n` on are not, and nothing has left the
/// range or come into it.
pub open spec fn split<T>(
    gt: spec_fn(T, T) -> bool,
    s: Seq<T>,
    t: Seq<T>,
    upper: usize,
    last: usize,
    n: usize,
) -> bool {
    &&& t.len() == s.len()
    &&& upper <= n <= last
    &&& t[last as int] == s[last as int]
    &&& forall|k: int| upper <= k < n ==> gt(#[trigger] t[k], t[last as int])
    &&& forall|k: int| n <= k < last ==> !gt(#[trigger] t[k], t[last as int])
    &&& span(t, upper, last).to_multiset() == span(s, upper, last).to_multiset()
    &&& t.to_multiset() == s.to_multiset()
    &&& forall|k: int| 0 <= k < s.len() && !(upper <= k <= last) ==> t[k] == s[k]
}

/// The scan splits the range that it runs over.
pub(crate) proof fn lemma_scanned_splits<T>(
    gt: spec_fn(T, T) -> bool,
    s: Seq<T>,
    upper: usize,
    last: usize,
    i: usize,
    nextp: usize,
)
    requires
        upper <= nextp <= i <= last,
        last < s.len(),
        forall|k: int| upper <= k < nextp ==> gt(#[trigger] s[k], s[last as int]),
        forall|k: int| nextp <= k < i ==> !gt(#[trigger] s[k], s[last as int]),
    ensures
        split(
            gt,
            s,
            scanned(gt, s, last, i, nextp).0,
            upper,
            last,
            scanned(gt, s, last, i, nextp).1,
        ),
    decreases last - i,
{
    if i < last {
        if gt(s[i as int], s[last as int]) {
            let t = swapped(s, i, nextp);
            lemma_swap_keeps_bag(s, i, nextp);
            lemma_swap_keeps_span(s, upper, last, i, nextp);
            assert(t[last as int] == s[last as int]);
            assert(t[nextp as int] == s[i as int]);
            assert forall|k: int| upper <= k < nextp + 1 implies gt(
                #[trigger] t[k],
                t[last as int],
            ) by {
                if k < nextp {
                    assert(t[k] == s[k]);
                }
            }
            assert forall|k: int| nextp + 1 <= k < i + 1 implies !gt(
                #[trigger] t[k],
                t[last as int],
            ) by {
                if k < i {
                    assert(t[k] == s[k]);
                } else {
                    assert(t[k] == s[nextp as int]);
                }
            }
            lemma_scanned_splits(gt, t, upper, last, (i + 1) as usize, (nextp + 1) as usize);
        } else {
            lemma_scanned_splits(gt, s, upper, last, (i + 1) as usize, nextp);
        }
    }
}

/// What a partition has made of a range: the item that stood at `p` stands at
/// `r`, before it stand the items of the range that are greater than it,
/// after it those that are not, and nothing has left the range or come into
/// it.
pub open spec fn parted<T>(
    gt: spec_fn(T, T) -> bool,
    s: Seq<T>,
    t: Seq<T>,
    lower: usize,
    upper: usize,
    p: usize,
    r: usize,
) -> bool {
    &&& t.len() == s.len()
    &&& upper <= r <= lower
    &&& t[r as int] == s[p as int]
    &&& forall|k: int| upper <= k < r ==> gt(#[trigger] t[k], t[r as int])
    &&& forall|k: int| r < k <= lower ==> !gt(#[trigger] t[k], t[r as int])
    &&& span(t, upper, lower).to_multiset() == span(s, upper, lower).to_multiset()
    &&& t.to_multiset() == s.to_multiset()
    &&& forall|k: int| 0 <= k < s.len() && !(upper <= k <= lower) ==> t[k] == s[k]
}

/// A partition parts the range that it is given.
pub(crate) proof fn lemma_partitioned_parts<T>(
    gt: spec_fn(T, T) -> bool,
    s: Seq<T>,
    lower: usize,
    upper: usize,
    p: usize,
)
    requires
        upper <= p <= lower,
        upper < lower,
        lower < s.len(),
    ensures
        parted(
            gt,
            s,
            partitioned(gt, s, lower, upper, p).0,
            lower,
            upper,
            p,
            partitioned(gt, s, lower, upper, p).1,
        ),
{
    let first = swapped(s, lower, p);
    let once = s.update(lower as int, s[p as int]);
    assert(once.len() == s.len());
    assert(first == once.update(p as int, s[lower as int]));
    if p == lower {
        assert(first[lower as int] == s[lower as int]);
    } else {
        assert(first[lower as int] == once[lower as int]);
    }
    assert(first[lower as int] == s[p as int]);
    lemma_swap_keeps_bag(s, lower, p);
    lemma_swap_keeps_span(s, upper, lower, lower, p);
    lemma_scanned_splits(gt, first, upper, lower, upper, upper);
    let (t, n) = scanned(gt, first, lower, upper, upper);
    lemma_swap_keeps_bag(t, n, lower);
    lemma_swap_keeps_span(t, upper, lower, n, lower);
    let done = swapped(t, n, lower);
    assert(partitioned(gt, s, lower, upper, p) == (done, n));
    assert(done[n as int] == t[lower as int]);
    assert forall|k: int| 0 <= k < s.len() && !(upper <= k <= lower) implies done[k] == s[k] by {
        assert(done[k] == t[k]);
        assert(t[k] == first[k]);
    }
    assert forall|k: int| upper <= k < n implies gt(#[trigger] done[k], done[n as int]) by {
        assert(done[k] == t[k]);
    }
    assert forall|k: int| n < k <= lower implies !gt(#[trigger] done[k], done[n as int]) by {
        if k < lower {
            assert(done[k] == t[k]);
        } else {
            assert(done[k] == t[n as int]);
        }
    }
}

/// What one pull has made of a state: one element is out, a least one
/// wherever the order is one to sort by, and the stack covers what is left,
/// in order from range to range.
pub open spec fn pulled_one<T>(
    gt: spec_fn(T, T) -> bool,
    s: Seq<T>,
    x: T,
    t: Seq<T>,
    work: Seq<(usize, usize)>,
) -> bool {
    &&& t.len() + 1 == s.len()
    &&& tiles(work, t.len())
    &&& layered(gt, t, work)
    &&& s.to_multiset() == t.to_multiset().insert(x)
    &&& least(gt, s.to_multiset(), x)
}

/// A pull on a state that is in order takes a least element out and leaves a
/// state that is in order.
pub(crate) proof fn lemma_qsorted_pulls<T>(
    gt: spec_fn(T, T) -> bool,
    s: Seq<T>,
    work: Seq<(usize, usize)>,
    lower: usize,
    upper: usize,
)
    requires
        coherent(gt),
        upper <= lower,
        lower + 1 == s.len(),
        tiles_below(work, upper),
        layered(gt, s, work),
        cut(gt, s, upper),
    ensures
        pulled_one(
            gt,
            s,
            qsorted(gt, s, work, lower, upper).0,
            qsorted(gt, s, work, lower, upper).1,
            qsorted(gt, s, work, lower, upper).2,
        ),
    decreases lower - upper,
{
    if upper == lower {
        lemma_drop_last_bag(s);
        lemma_tail_is_least(gt, s, upper);
        lemma_layers_shrink(gt, s, work);
    } else {
        let (t, r) = partitioned(gt, s, lower, upper, mid(lower, upper));
        lemma_partitioned_parts(gt, s, lower, upper, mid(lower, upper));
        lemma_layers_kept(gt, s, t, work, upper, lower);
        lemma_cut_kept(gt, s, t, upper, upper, lower);
        let (next_lower, next_upper): (usize, usize) = if r == lower {
            ((r - 1) as usize, r)
        } else {
            (r, (r + 1) as usize)
        };
        lemma_cut_made(gt, t, upper, lower, r, next_upper);
        lemma_tiles_push(work, next_lower, upper);
        let more = work.push((next_lower, upper));
        assert forall|k: int| 0 <= k < more.len() implies cut(gt, t, (#[trigger] more[k]).1) by {
            if k < work.len() {
                assert(more[k] == work[k]);
            }
        }
        lemma_qsorted_pulls(gt, t, more, lower, next_upper);
    }
}

/// The elements come out in ascending order, each of them once: a drain is
/// an ascending arrangement of the buffer.
pub(crate) proof fn lemma_drained_ascends<T>(
    gt: spec_fn(T, T) -> bool,
    s: Seq<T>,
    work: Seq<(usize, usize)>,
)
    requires
        coherent(gt),
        tiles(work, s.len()),
        layered(gt, s, work),
    ensures
        ascending(gt, drained(gt, s, work)),
        drained(gt, s, work).to_multiset() == s.to_multiset(),
        drained(gt, s, work).len() == s.len(),
    decreases s.len(),
{
    broadcast use vstd::seq_lib::group_to_multiset_ensures;
    broadcast use vstd::multiset::group_multiset_axioms;

    if work.len() == 0 {
        assert(s =~= Seq::<T>::empty());
    } else {
        lemma_tiles_pop(work, s.len());
        let (x, t, rest) = qsorted(gt, s, work.drop_last(), work.last().0, work.last().1);
        lemma_layers_pop(gt, s, work);
        lemma_qsorted_pulls(gt, s, work.drop_last(), work.last().0, work.last().1);
        lemma_drained_ascends(gt, t, rest);
        let after = drained(gt, t, rest);
        let all = seq![x] + after;
        assert(all == drained(gt, s, work));
        assert(all =~= after.insert(0, x));
        assert(all.to_multiset() == after.to_multiset().insert(x));
        assert forall|i: int, j: int| 0 <= i < j < all.len() implies !above(gt, all[i], all[j]) by {
            assert(all[j] == after[j - 1]);
            if i == 0 {
                assert(after.contains(after[j - 1]));
                assert(t.to_multiset().contains(after[j - 1]));
                assert(s.to_multiset().contains(after[j - 1]));
            } else {
                assert(all[i] == after[i - 1]);
            }
        }
    }
}

} // verus!

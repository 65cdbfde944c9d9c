//! What holds of every lazily sorted sequence: a whole drain is the input in
//! ascending order, what has been pulled so far is the start of it, and one
//! input has one result.

use crate::bag::{lemma_drop_first_bag, lemma_map_keeps_bag};
use crate::layers::{layered, tiles, whole};
use crate::model::{drained, lemma_drained_ascends};
use crate::order::{above, ascending, coherent, least};
use crate::policy::{law_partial_order, lawful_partial, partial};
use std::cmp::Ordering;
use vstd::multiset::Multiset;
use vstd::prelude::*;
use vstd::std_specs::cmp::PartialOrdSpec;

verus! {

/// Any two different elements of `bag` are strictly ordered, one way or the
/// other: none of them is left incomparable, and no two of them are equal in
/// order only.
pub open spec fn total_on<T>(gt: spec_fn(T, T) -> bool, bag: Multiset<T>) -> bool {
    forall|a: T, b: T|
        #![trigger gt(a, b)]
        bag.contains(a) && bag.contains(b) && a != b ==> above(gt, a, b) || above(gt, b, a)
}

/// Under a total order, "strictly above" says what "greater" says, any two
/// different elements are told apart, and a sequence is ascending where it is
/// sorted by "not greater".
proof fn lemma_total_ordering<T>(gt: spec_fn(T, T) -> bool)
    requires
        vstd::relations::total_ordering(|a: T, b: T| !gt(a, b)),
    ensures
        coherent(gt),
        forall|a: T, b: T| above(gt, a, b) <==> #[trigger] gt(a, b),
        forall|bag: Multiset<T>| #[trigger] total_on(gt, bag),
        forall|s: Seq<T>|
            #[trigger] ascending(gt, s) <==> vstd::relations::sorted_by(s, |a: T, b: T| !gt(a, b)),
{
    let leq = |a: T, b: T| !gt(a, b);
    assert forall|a: T, b: T| above(gt, a, b) <==> #[trigger] gt(a, b) by {
        assert(leq(a, b) || leq(b, a));
    }
    assert forall|a: T, b: T, c: T| above(gt, a, b) && #[trigger] gt(b, c) implies #[trigger] gt(
        a,
        c,
    ) by {
        assert(leq(b, a));
        if leq(a, c) {
            assert(leq(b, c));
        }
    }
    assert forall|bag: Multiset<T>| #[trigger] total_on(gt, bag) by {
        assert forall|a: T, b: T| a != b implies above(gt, a, b) || above(gt, b, a) by {
            assert(leq(a, b) || leq(b, a));
            assert(!(leq(a, b) && leq(b, a)));
        }
    }
    assert forall|s: Seq<T>|
        #[trigger] ascending(gt, s) <==> vstd::relations::sorted_by(s, leq) by {
        if ascending(gt, s) {
            assert forall|i: int, j: int| 0 <= i < j < s.len() implies #[trigger] leq(
                s[i],
                s[j],
            ) by {
                assert(!above(gt, s[i], s[j]));
            }
        }
        if vstd::relations::sorted_by(s, leq) {
            assert forall|i: int, j: int| 0 <= i < j < s.len() implies !above(gt, s[i], s[j]) by {
                assert(leq(s[i], s[j]));
            }
        }
    }
}

/// A drain is ascending and holds each element of the buffer once, for every
/// order that is one to sort by. Here and below, `buffer` and `pending` are
/// those of a sequence between two pulls: of a fresh one, or of one that has
/// been read in part.
pub proof fn law_drain_ascends<T>(
    gt: spec_fn(T, T) -> bool,
    buffer: Seq<T>,
    pending: Seq<(usize, usize)>,
)
    requires
        coherent(gt),
        tiles(pending, buffer.len()),
        layered(gt, buffer, pending),
    ensures
        ascending(gt, drained(gt, buffer, pending)),
        drained(gt, buffer, pending).to_multiset() == buffer.to_multiset(),
        drained(gt, buffer, pending).len() == buffer.len(),
{
    lemma_drained_ascends(gt, buffer, pending);
}

/// A fresh sequence is between two pulls: its one range covers the buffer,
/// and nothing is out of order from range to range.
pub proof fn law_fresh_is_in_order<T>(gt: spec_fn(T, T) -> bool, input: Seq<T>)
    requires
        input.len() <= usize::MAX,
    ensures
        tiles(whole(input.len()), input.len()),
        layered(gt, input, whole(input.len())),
{
}

/// Where the order leaves no two different elements untold, there is one
/// ascending arrangement of them: two ascending sequences with the same
/// elements are the same sequence, however they were made.
pub proof fn law_ascending_is_unique<T>(gt: spec_fn(T, T) -> bool, one: Seq<T>, other: Seq<T>)
    requires
        total_on(gt, one.to_multiset()),
        one.to_multiset() == other.to_multiset(),
        ascending(gt, one),
        ascending(gt, other),
    ensures
        one == other,
    decreases one.len(),
{
    broadcast use vstd::multiset::group_multiset_axioms;

    vstd::seq_lib::to_multiset_len(one);
    vstd::seq_lib::to_multiset_len(other);
    if one.len() == 0 {
        assert(one =~= other);
    } else {
        let bag = one.to_multiset();
        lemma_drop_first_bag(one);
        lemma_drop_first_bag(other);
        lemma_first_is_least(gt, one);
        lemma_first_is_least(gt, other);
        assert(one[0] == other[0]) by {
            assert(!above(gt, one[0], other[0]));
            assert(!above(gt, other[0], one[0]));
            if one[0] != other[0] {
                assert(above(gt, one[0], other[0]) || above(gt, other[0], one[0]));
            }
        }
        assert forall|a: T| bag.remove(one[0]).contains(a) implies #[trigger] bag.contains(a) by {}
        lemma_drop_first_ascending(gt, one);
        lemma_drop_first_ascending(gt, other);
        law_ascending_is_unique(gt, one.drop_first(), other.drop_first());
        assert forall|i: int| 0 <= i < one.len() implies one[i] == other[i] by {
            if i > 0 {
                assert(one[i] == one.drop_first()[i - 1]);
                assert(other[i] == other.drop_first()[i - 1]);
            }
        }
        assert(one =~= other);
    }
}

/// Without its first item, an ascending sequence is ascending.
proof fn lemma_drop_first_ascending<T>(gt: spec_fn(T, T) -> bool, s: Seq<T>)
    requires
        s.len() > 0,
        ascending(gt, s),
    ensures
        ascending(gt, s.drop_first()),
{
    let t = s.drop_first();
    assert forall|i: int, j: int| 0 <= i < j < t.len() implies !above(gt, t[i], t[j]) by {
        assert(t[i] == s[i + 1]);
        assert(t[j] == s[j + 1]);
    }
}

/// The first item of an ascending sequence is a least element of its bag.
proof fn lemma_first_is_least<T>(gt: spec_fn(T, T) -> bool, s: Seq<T>)
    requires
        s.len() > 0,
        ascending(gt, s),
    ensures
        least(gt, s.to_multiset(), s[0]),
{
    broadcast use vstd::seq_lib::group_to_multiset_ensures;

    assert(s.contains(s[0]));
    assert forall|y: T| s.to_multiset().contains(y) implies !above(gt, s[0], y) by {
        assert(s.contains(y));
        let k: int = choose|k: int| 0 <= k < s.len() && s[k] == y;
        if k > 0 {
            assert(!above(gt, s[0], s[k]));
        }
    }
}

/// Under a total order, an ascending sequence with the elements of `input` is
/// `input` sorted: the sequence that `sort_by` defines for "not greater".
pub proof fn law_ascending_is_the_sort<T>(gt: spec_fn(T, T) -> bool, input: Seq<T>, out: Seq<T>)
    requires
        vstd::relations::total_ordering(|a: T, b: T| !gt(a, b)),
        out.to_multiset() == input.to_multiset(),
        ascending(gt, out),
    ensures
        out == input.sort_by(|a: T, b: T| !gt(a, b)),
{
    let leq = |a: T, b: T| !gt(a, b);
    lemma_total_ordering(gt);
    input.lemma_sort_by_ensures(leq);
    assert(vstd::relations::sorted_by(out, leq));
    vstd::seq_lib::lemma_sorted_unique(out, input.sort_by(leq), leq);
}

/// Total-order correctness: under a total order, a drain is the buffer
/// sorted.
pub proof fn law_drain_is_the_sort<T>(
    gt: spec_fn(T, T) -> bool,
    buffer: Seq<T>,
    pending: Seq<(usize, usize)>,
)
    requires
        vstd::relations::total_ordering(|a: T, b: T| !gt(a, b)),
        tiles(pending, buffer.len()),
        layered(gt, buffer, pending),
    ensures
        drained(gt, buffer, pending) == buffer.sort_by(|a: T, b: T| !gt(a, b)),
{
    lemma_total_ordering(gt);
    law_drain_ascends(gt, buffer, pending);
    law_ascending_is_the_sort(gt, buffer, drained(gt, buffer, pending));
}

/// Partial consumption: under a total order, what has been pulled so far is
/// the start of the buffer sorted, however many elements that is. Here `out`
/// holds what the pulls have returned, and `rest` what is still to come.
pub proof fn law_pulls_start_the_sort<T>(
    gt: spec_fn(T, T) -> bool,
    buffer: Seq<T>,
    pending: Seq<(usize, usize)>,
    out: Seq<T>,
    rest: Seq<T>,
)
    requires
        vstd::relations::total_ordering(|a: T, b: T| !gt(a, b)),
        tiles(pending, buffer.len()),
        layered(gt, buffer, pending),
        drained(gt, buffer, pending) == out + rest,
    ensures
        out.len() <= buffer.len(),
        out == buffer.sort_by(|a: T, b: T| !gt(a, b)).take(out.len() as int),
{
    lemma_total_ordering(gt);
    law_drain_is_the_sort(gt, buffer, pending);
    law_drain_ascends(gt, buffer, pending);
    assert((out + rest).take(out.len() as int) =~= out);
}

/// Placement under a partial order: with either rule, no element of a drain
/// stands before one that it is greater than. The elements that the order
/// can compare come in ascending order; where the others come among them is
/// left open.
pub proof fn law_partial_placement<T: PartialOrd>(
    first: bool,
    buffer: Seq<T>,
    pending: Seq<(usize, usize)>,
)
    requires
        lawful_partial::<T>(),
        tiles(pending, buffer.len()),
        layered(partial::<T>(first), buffer, pending),
    ensures
        drained(partial::<T>(first), buffer, pending).to_multiset() == buffer.to_multiset(),
        forall|i: int, j: int|
            0 <= i < j < buffer.len() ==> drained(
                partial::<T>(first),
                buffer,
                pending,
            )[i].partial_cmp_spec(&drained(partial::<T>(first), buffer, pending)[j]) != Some(
                Ordering::Greater,
            ),
{
    law_partial_order::<T>(first);
    law_drain_ascends(partial::<T>(first), buffer, pending);
    let out = drained(partial::<T>(first), buffer, pending);
    assert forall|i: int, j: int|
        0 <= i < j < buffer.len() implies out[i].partial_cmp_spec(&out[j]) != Some(
        Ordering::Greater,
    ) by {
        assert(!above(partial::<T>(first), out[i], out[j]));
    }
}

/// One input, one result: a drain is a function of the buffer, of the ranges
/// that are pending, and of the order. Two fresh sequences over the same
/// input give the same elements in the same places, also where the order
/// calls different elements equal.
pub proof fn law_drains_agree<T>(
    gt: spec_fn(T, T) -> bool,
    input: Seq<T>,
    one: Seq<T>,
    other: Seq<T>,
)
    requires
        one == drained(gt, input, whole(input.len())),
        other == drained(gt, input, whole(input.len())),
    ensures
        one == other,
{
}

/// The order of the elements by a key of theirs: `a` is greater than `b`
/// where the key of `a` is greater than the key of `b`.
pub open spec fn by_key<T, K>(key: spec_fn(T) -> K, gt: spec_fn(K, K) -> bool) -> spec_fn(
    T,
    T,
) -> bool {
    |a: T, b: T| gt(key(a), key(b))
}

/// Sorting by a key: where the keys are totally ordered, the order by key is
/// one to sort by, and the keys of a drain are the keys of the buffer, sorted.
pub proof fn law_sorted_by_key<T, K>(
    key: spec_fn(T) -> K,
    gt: spec_fn(K, K) -> bool,
    buffer: Seq<T>,
    pending: Seq<(usize, usize)>,
)
    requires
        vstd::relations::total_ordering(|x: K, y: K| !gt(x, y)),
        tiles(pending, buffer.len()),
        layered(by_key(key, gt), buffer, pending),
    ensures
        coherent(by_key(key, gt)),
        drained(by_key(key, gt), buffer, pending).map_values(key) == buffer.map_values(
            key,
        ).sort_by(|x: K, y: K| !gt(x, y)),
{
    let leq = |x: K, y: K| !gt(x, y);
    let over = by_key(key, gt);
    assert forall|a: T, b: T, c: T|
        above(over, a, b) && #[trigger] over(b, c) implies #[trigger] over(a, c) by {
        assert(leq(key(b), key(a)));
        if leq(key(a), key(c)) {
            assert(leq(key(b), key(c)));
        }
    }
    law_drain_ascends(over, buffer, pending);
    let out = drained(over, buffer, pending);
    let keys = out.map_values(key);
    assert forall|i: int, j: int| 0 <= i < j < keys.len() implies !above(gt, keys[i], keys[j]) by {
        assert(!above(over, out[i], out[j]));
    }
    lemma_map_keeps_bag(out, buffer, key);
    law_ascending_is_the_sort(gt, buffer.map_values(key), keys);
}

} // verus!

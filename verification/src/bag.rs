//! Sequences as bags: what stays the same when two items of a buffer change
//! places, or when its last item leaves.

use vstd::prelude::*;

verus! {

/// The item of `s` at index `i`.
pub open spec fn item<T>(s: Seq<T>, i: usize) -> T {
    s[i as int]
}

/// The items of `s` at the indices from `upper` to `lower`, both included.
pub open spec fn span<T>(s: Seq<T>, upper: usize, lower: usize) -> Seq<T> {
    s.subrange(upper as int, lower + 1)
}

/// `s`, with the items at `a` and `b` in each other's place.
pub open spec fn swapped<T>(s: Seq<T>, a: usize, b: usize) -> Seq<T> {
    s.update(a as int, s[b as int]).update(b as int, s[a as int])
}

/// Exchanges the items at `a` and `b`.
///
/// This is `<[T]>::swap`, and its contract is taken on trust, not proved:
/// afterwards each of the two indices holds what the other held, and every
/// other index holds what it held before. The slice method panics on an index
/// out of bounds, so both indices are required to be in bounds.
#[verifier::external_body]
pub(crate) fn swap<T>(v: &mut Vec<T>, a: usize, b: usize)
    requires
        a < old(v).len(),
        b < old(v).len(),
    ensures
        final(v)@ == swapped(old(v)@, a, b),
{
    v.swap(a, b)
}

/// A swap keeps the bag of the whole sequence.
pub(crate) proof fn lemma_swap_keeps_bag<T>(s: Seq<T>, a: usize, b: usize)
    requires
        a < s.len(),
        b < s.len(),
    ensures
        swapped(s, a, b).to_multiset() == s.to_multiset(),
{
    broadcast use vstd::seq_lib::group_to_multiset_ensures;
    broadcast use vstd::multiset::group_multiset_axioms;

    let once = s.update(a as int, s[b as int]);
    assert(once.to_multiset() == s.to_multiset().insert(s[b as int]).remove(s[a as int]));
    assert(swapped(s, a, b).to_multiset() == once.to_multiset().insert(s[a as int]).remove(
        once[b as int],
    ));
    assert(s.to_multiset().contains(s[a as int])) by {
        assert(s.contains(s[a as int]));
    }
    assert(s.to_multiset().contains(s[b as int])) by {
        assert(s.contains(s[b as int]));
    }
    assert(swapped(s, a, b).to_multiset() =~= s.to_multiset());
}

/// A swap inside a span keeps the bag of that span.
pub(crate) proof fn lemma_swap_keeps_span<T>(
    s: Seq<T>,
    upper: usize,
    lower: usize,
    a: usize,
    b: usize,
)
    requires
        upper <= a <= lower,
        upper <= b <= lower,
        lower < s.len(),
    ensures
        span(swapped(s, a, b), upper, lower).to_multiset() == span(s, upper, lower).to_multiset(),
{
    let inner = span(s, upper, lower);
    let x: usize = (a - upper) as usize;
    let y: usize = (b - upper) as usize;
    assert(span(swapped(s, a, b), upper, lower) =~= swapped(inner, x, y));
    lemma_swap_keeps_bag(inner, x, y);
}

/// Every item of a sequence is in its bag.
pub(crate) proof fn lemma_items_in_bag<T>(s: Seq<T>)
    ensures
        forall|k: int| 0 <= k < s.len() ==> s.to_multiset().contains(#[trigger] s[k]),
{
    broadcast use vstd::seq_lib::group_to_multiset_ensures;

    assert forall|k: int| 0 <= k < s.len() implies s.to_multiset().contains(#[trigger] s[k]) by {
        assert(s.contains(s[k]));
    }
}

/// What stands at two indices of a sequence is more than once in its bag.
pub(crate) proof fn lemma_two_places<T>(s: Seq<T>, i: int, j: usize)
    requires
        0 <= i < s.len(),
        j < s.len(),
        i != j,
        s[i] == item(s, j),
    ensures
        s.to_multiset().count(s[i]) > 1,
{
    broadcast use vstd::seq_lib::group_to_multiset_ensures;
    broadcast use vstd::multiset::group_multiset_axioms;

    let rest = s.remove(i);
    let at: int = if j < i {
        j as int
    } else {
        j - 1
    };
    assert(rest.len() == s.len() - 1);
    assert(0 <= at < rest.len());
    assert(rest[at] == s[j as int]);
    assert(rest.contains(s[i]));
    assert(rest.to_multiset().count(s[i]) > 0);
    assert(rest.to_multiset() == s.to_multiset().remove(s[i]));
}

/// Every element of the bag of a sequence stands at some index of it.
pub(crate) proof fn lemma_bag_has_index<T>(s: Seq<T>, x: T) -> (k: int)
    requires
        s.to_multiset().contains(x),
    ensures
        0 <= k < s.len(),
        s[k] == x,
{
    broadcast use vstd::seq_lib::group_to_multiset_ensures;

    assert(s.contains(x));
    choose|k: int| 0 <= k < s.len() && s[k] == x
}

/// Where two sequences hold the same bag in one span, each item that the one
/// has there, the other has there too.
pub(crate) proof fn lemma_span_item_moved<T>(
    s: Seq<T>,
    t: Seq<T>,
    upper: usize,
    lower: usize,
    k: int,
) -> (m: int)
    requires
        upper <= lower,
        lower < s.len(),
        s.len() == t.len(),
        span(s, upper, lower).to_multiset() == span(t, upper, lower).to_multiset(),
        upper <= k <= lower,
    ensures
        upper <= m <= lower,
        t[m] == s[k],
{
    let inner = span(s, upper, lower);
    lemma_items_in_bag(inner);
    assert(inner[k - upper] == s[k]);
    let at: int = lemma_bag_has_index(span(t, upper, lower), s[k]);
    at + upper
}

/// When the last item leaves, the bag loses that one element.
pub(crate) proof fn lemma_drop_last_bag<T>(s: Seq<T>)
    requires
        s.len() > 0,
    ensures
        s.to_multiset() == s.drop_last().to_multiset().insert(s.last()),
{
    broadcast use vstd::seq_lib::group_to_multiset_ensures;

    assert(s =~= s.drop_last().push(s.last()));
}

/// Without its first item, a sequence holds the bag without that item.
pub(crate) proof fn lemma_drop_first_bag<T>(s: Seq<T>)
    requires
        s.len() > 0,
    ensures
        s.drop_first().to_multiset() == s.to_multiset().remove(s[0]),
        s.to_multiset().contains(s[0]),
{
    broadcast use vstd::seq_lib::group_to_multiset_ensures;

    assert(s.drop_first() =~= s.remove(0));
    assert(s.contains(s[0]));
}

/// Two sequences that hold the same bag still do so when `f` is taken of
/// each of their items.
pub(crate) proof fn lemma_map_keeps_bag<T, K>(a: Seq<T>, b: Seq<T>, f: spec_fn(T) -> K)
    requires
        a.to_multiset() == b.to_multiset(),
    ensures
        a.map_values(f).to_multiset() == b.map_values(f).to_multiset(),
    decreases a.len(),
{
    broadcast use vstd::multiset::group_multiset_axioms;

    vstd::seq_lib::to_multiset_len(a);
    vstd::seq_lib::to_multiset_len(b);
    if a.len() == 0 {
        assert(a.map_values(f) =~= b.map_values(f));
    } else {
        let x = a[0];
        lemma_drop_first_bag(a);
        let k: int = lemma_bag_has_index(b, x);
        vstd::seq_lib::to_multiset_remove(b, k);
        lemma_map_keeps_bag(a.drop_first(), b.remove(k), f);
        let fa = a.map_values(f);
        let fb = b.map_values(f);
        lemma_drop_first_bag(fa);
        assert(fa.drop_first() =~= a.drop_first().map_values(f));
        vstd::seq_lib::to_multiset_remove(fb, k);
        assert(fb.remove(k) =~= b.remove(k).map_values(f));
        lemma_items_in_bag(fb);
        let v = f(x);
        let ma = fa.to_multiset();
        let mb = fb.to_multiset();
        assert(fa[0] == v && fb[k] == v);
        assert(ma.contains(v) && mb.contains(v));
        assert(ma.remove(v) == mb.remove(v));
        assert forall|w: K| ma.count(w) == mb.count(w) by {
            assert(ma.remove(v).count(w) == mb.remove(v).count(w));
        }
        assert(ma =~= mb);
    }
}

} // verus!

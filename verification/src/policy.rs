//! The orders that come with the elements: their total order, and their
//! partial order with a rule for the pairs that it leaves open.

use crate::order::{above, coherent};
use std::cmp::Ordering;
use vstd::prelude::*;
use vstd::std_specs::cmp::{OrdSpec, PartialEqSpec, PartialOrdSpec};

verus! {

/// Where a pair has no order, `first` decides: the pair compares as `Less`
/// when it is set, as `Greater` when it is not.
pub open spec fn placed(first: bool, found: Option<Ordering>) -> Ordering {
    match found {
        Some(o) => o,
        None => if first {
            Ordering::Less
        } else {
            Ordering::Greater
        },
    }
}

/// `o` is what the rule makes of an answer of `partial_cmp` for `a` and `b`.
pub open spec fn rules<T: PartialOrd>(first: bool, a: T, b: T, o: Ordering) -> bool {
    exists|found: Option<Ordering>| #[trigger]
        call_ensures(T::partial_cmp, (&a, &b), found) && o == placed(first, found)
}

/// The partial order of `T`, with every pair that it leaves open compared as `Less`.
pub fn partial_cmp_first<T: PartialOrd>(a: &T, b: &T) -> (o: Ordering)
    ensures
        rules(true, *a, *b, o),
        T::obeys_partial_cmp_spec() ==> o == placed(true, a.partial_cmp_spec(b)),
{
    match a.partial_cmp(b) {
        Some(order) => order,
        None => Ordering::Less,
    }
}

/// The partial order of `T`, with every pair that it leaves open compared as `Greater`.
pub fn partial_cmp_last<T: PartialOrd>(a: &T, b: &T) -> (o: Ordering)
    ensures
        rules(false, *a, *b, o),
        T::obeys_partial_cmp_spec() ==> o == placed(false, a.partial_cmp_spec(b)),
{
    match a.partial_cmp(b) {
        Some(order) => order,
        None => Ordering::Greater,
    }
}

/// The total order of `T`: what `cmp` calls `Greater`.
pub open spec fn natural<T: Ord>() -> spec_fn(T, T) -> bool {
    |a: T, b: T| a.cmp_spec(&b) == Ordering::Greater
}

/// The partial order of `T` under the rule that `first` chooses: what
/// `partial_cmp` calls `Greater` and, unless `first` is set, every pair that
/// it leaves open as well.
pub open spec fn partial<T: PartialOrd>(first: bool) -> spec_fn(T, T) -> bool {
    |a: T, b: T| placed(first, a.partial_cmp_spec(&b)) == Ordering::Greater
}

/// `a` is less than `b`, or equal to it, in the partial order of `T`.
pub open spec fn le<T: PartialOrd>(a: T, b: T) -> bool {
    a.partial_cmp_spec(&b) == Some(Ordering::Less) || a.partial_cmp_spec(&b) == Some(
        Ordering::Equal,
    )
}

/// The partial order of `T` keeps the laws of one: `a < b` says what `b > a`
/// says, `a == b` what `b == a` says, and both "greater" and "less or equal"
/// carry over a middle element.
pub open spec fn lawful_partial<T: PartialOrd>() -> bool {
    &&& forall|a: T, b: T|
        #![trigger a.partial_cmp_spec(&b)]
        a.partial_cmp_spec(&b) == Some(Ordering::Less) <==> b.partial_cmp_spec(&a) == Some(
            Ordering::Greater,
        )
    &&& forall|a: T, b: T|
        #![trigger a.partial_cmp_spec(&b)]
        a.partial_cmp_spec(&b) == Some(Ordering::Equal) ==> b.partial_cmp_spec(&a) == Some(
            Ordering::Equal,
        )
    &&& forall|a: T, b: T, c: T|
        #![trigger a.partial_cmp_spec(&b), b.partial_cmp_spec(&c)]
        a.partial_cmp_spec(&b) == Some(Ordering::Greater) && b.partial_cmp_spec(&c) == Some(
            Ordering::Greater,
        ) ==> a.partial_cmp_spec(&c) == Some(Ordering::Greater)
    &&& forall|a: T, b: T, c: T|
        #![trigger a.partial_cmp_spec(&b), b.partial_cmp_spec(&c)]
        le(a, b) && le(b, c) ==> le(a, c)
}

/// Under either rule, a lawful partial order is one to sort by, and an
/// element is strictly above another exactly where `partial_cmp` calls it
/// `Greater`. Where a pair is left open, neither is above the other.
pub proof fn law_partial_order<T: PartialOrd>(first: bool)
    requires
        lawful_partial::<T>(),
    ensures
        coherent(partial::<T>(first)),
        forall|a: T, b: T|
            above(partial::<T>(first), a, b) <==> a.partial_cmp_spec(&b) == Some(
                Ordering::Greater,
            ),
{
    let gt = partial::<T>(first);
    assert forall|a: T, b: T| above(gt, a, b) <==> a.partial_cmp_spec(&b) == Some(
        Ordering::Greater,
    ) by {
        assert(gt(a, b) == (placed(first, a.partial_cmp_spec(&b)) == Ordering::Greater));
        assert(gt(b, a) == (placed(first, b.partial_cmp_spec(&a)) == Ordering::Greater));
    }
    assert forall|a: T, b: T, c: T| above(gt, a, b) && #[trigger] gt(b, c) implies #[trigger] gt(
        a,
        c,
    ) by {
        assert(gt(b, c) == (placed(first, b.partial_cmp_spec(&c)) == Ordering::Greater));
        assert(gt(a, c) == (placed(first, a.partial_cmp_spec(&c)) == Ordering::Greater));
        assert(a.partial_cmp_spec(&b) == Some(Ordering::Greater));
        assert(b.partial_cmp_spec(&a) == Some(Ordering::Less));
        if !first {
            if le(a, c) {
                assert(le(b, a));
                assert(le(b, c));
            }
        }
    }
}

/// The total order of a type whose comparisons keep the laws of one, and
/// agree with equality, is one to sort by, and "not greater" is a total
/// ordering.
pub proof fn law_total_order<T: Ord>()
    requires
        vstd::laws_cmp::obeys_cmp::<T>(),
        vstd::laws_eq::obeys_concrete_eq::<T>(),
    ensures
        coherent(natural::<T>()),
        vstd::relations::total_ordering(|a: T, b: T| !natural::<T>()(a, b)),
{
    reveal(vstd::laws_cmp::obeys_cmp_partial_ord);
    reveal(vstd::laws_cmp::obeys_cmp_ord);
    reveal(vstd::laws_cmp::obeys_partial_cmp_spec_properties);
    reveal(vstd::laws_eq::obeys_concrete_eq);
    let gt = natural::<T>();
    let leq = |a: T, b: T| !natural::<T>()(a, b);
    assert forall|a: T, b: T| gt(a, b) == (a.cmp_spec(&b) == Ordering::Greater) by {}
    assert forall|a: T, b: T| #[trigger] a.partial_cmp_spec(&b) == Some(a.cmp_spec(&b)) by {}
    assert forall|a: T, b: T, c: T| above(gt, a, b) && #[trigger] gt(b, c) implies #[trigger] gt(
        a,
        c,
    ) by {
        assert(a.partial_cmp_spec(&b) == Some(Ordering::Greater));
        assert(b.partial_cmp_spec(&c) == Some(Ordering::Greater));
    }
    assert forall|a: T| #[trigger] leq(a, a) by {
        assert(a.eq_spec(&a));
        assert(a.partial_cmp_spec(&a) == Some(Ordering::Equal));
    }
    assert forall|a: T, b: T| #[trigger] leq(a, b) && #[trigger] leq(b, a) implies a == b by {
        assert(a.partial_cmp_spec(&b) == Some(a.cmp_spec(&b)));
        assert(b.partial_cmp_spec(&a) == Some(b.cmp_spec(&a)));
        if a.cmp_spec(&b) == Ordering::Less {
            assert(b.partial_cmp_spec(&a) == Some(Ordering::Greater));
        }
        assert(a.eq_spec(&b));
    }
    assert forall|a: T, b: T, c: T| #[trigger] leq(a, b) && #[trigger] leq(b, c) implies leq(
        a,
        c,
    ) by {
        assert(a.partial_cmp_spec(&b) == Some(a.cmp_spec(&b)));
        assert(b.partial_cmp_spec(&c) == Some(b.cmp_spec(&c)));
        assert(a.partial_cmp_spec(&c) == Some(a.cmp_spec(&c)));
        if a.cmp_spec(&b) == Ordering::Equal {
            assert(a.eq_spec(&b));
        } else if b.cmp_spec(&c) == Ordering::Equal {
            assert(b.eq_spec(&c));
        }
    }
    assert forall|a: T, b: T| #[trigger] leq(a, b) || #[trigger] leq(b, a) by {
        assert(a.partial_cmp_spec(&b) == Some(a.cmp_spec(&b)));
        assert(b.partial_cmp_spec(&a) == Some(b.cmp_spec(&a)));
        if a.cmp_spec(&b) == Ordering::Greater {
            assert(b.partial_cmp_spec(&a) == Some(Ordering::Less));
        }
    }
}

/// The partial order of such a type is lawful: what `law_total_order` asks of
/// a type is enough for `law_partial_order` and `law_partial_placement`.
pub proof fn law_total_is_lawful<T: Ord>()
    requires
        vstd::laws_cmp::obeys_cmp::<T>(),
        vstd::laws_eq::obeys_concrete_eq::<T>(),
    ensures
        lawful_partial::<T>(),
{
    reveal(vstd::laws_cmp::obeys_cmp_partial_ord);
    reveal(vstd::laws_cmp::obeys_cmp_ord);
    reveal(vstd::laws_cmp::obeys_partial_cmp_spec_properties);
    reveal(vstd::laws_eq::obeys_concrete_eq);
    assert forall|a: T, b: T, c: T| le(a, b) && le(b, c) implies le(a, c) by {
        if a.partial_cmp_spec(&b) == Some(Ordering::Equal) {
            assert(a.eq_spec(&b));
        }
        if b.partial_cmp_spec(&c) == Some(Ordering::Equal) {
            assert(b.eq_spec(&c));
        }
    }
}

} // verus!

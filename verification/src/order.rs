//! Comparators and the orders that they stand for.
//!
//! A comparator is executable: a function or closure that is handed two
//! elements and answers with an `Ordering`. What it stands for is a relation,
//! here always called `gt`: `gt(a, b)` says that `a` is greater than `b`. The
//! engine asks the comparator and sorts by the relation.

use std::cmp::Ordering;
use vstd::multiset::Multiset;
use vstd::prelude::*;

verus! {

/// `by` has `Greater` among its answers for `a` compared with `b`.
pub open spec fn greater<T, F>(by: F, a: T, b: T) -> bool where F: FnMut(&T, &T) -> Ordering {
    call_ensures(by, (&a, &b), Ordering::Greater)
}

/// `by` has `Less` or `Equal` among its answers for `a` compared with `b`.
pub open spec fn at_most<T, F>(by: F, a: T, b: T) -> bool where F: FnMut(&T, &T) -> Ordering {
    call_ensures(by, (&a, &b), Ordering::Less) || call_ensures(by, (&a, &b), Ordering::Equal)
}

/// `by` can be called on every two elements of `bag`: on two different ones,
/// and on one with itself where the bag holds it more than once.
pub open spec fn accepts<T, F>(by: F, bag: Multiset<T>) -> bool where
    F: FnMut(&T, &T) -> Ordering,
 {
    forall|a: T, b: T|
        #![trigger call_requires(by, (&a, &b))]
        bag.contains(a) && bag.contains(b) && (a != b || bag.count(a) > 1) ==> call_requires(
            by,
            (&a, &b),
        )
}

/// Whatever `by` answers, `other` answers too.
pub open spec fn echoes<T, F, G>(by: F, other: G) -> bool where
    F: FnMut(&T, &T) -> Ordering,
    G: FnMut(&T, &T) -> Ordering,
 {
    forall|a: T, b: T, o: Ordering| #[trigger]
        call_ensures(by, (&a, &b), o) ==> call_ensures(other, (&a, &b), o)
}

/// Whatever `by` answers, it answers `Greater` exactly for the pairs that `gt` holds of.
pub open spec fn obeys<T, F>(by: F, gt: spec_fn(T, T) -> bool) -> bool where
    F: FnMut(&T, &T) -> Ordering,
 {
    forall|a: T, b: T, o: Ordering| #[trigger]
        call_ensures(by, (&a, &b), o) ==> (o == Ordering::Greater <==> gt(a, b))
}

/// `a` is strictly above `b`: greater than `b`, while `b` is not greater than `a`.
pub open spec fn above<T>(gt: spec_fn(T, T) -> bool, a: T, b: T) -> bool {
    gt(a, b) && !gt(b, a)
}

/// What is strictly above an element is greater than everything that this
/// element is greater than. Every strict partial order is coherent, and so is
/// the complement of every preorder: "greater" may mean "not less or equal".
pub open spec fn coherent<T>(gt: spec_fn(T, T) -> bool) -> bool {
    forall|a: T, b: T, c: T|
        #![trigger gt(a, b), gt(b, c)]
        above(gt, a, b) && gt(b, c) ==> gt(a, c)
}

/// `by` sorts by `gt`: it answers as `gt` says, and `gt` is coherent.
pub open spec fn sorts<T, F>(by: F, gt: spec_fn(T, T) -> bool) -> bool where
    F: FnMut(&T, &T) -> Ordering,
 {
    obeys(by, gt) && coherent(gt)
}

/// No element of `s` stands before one that it is strictly above.
pub open spec fn ascending<T>(gt: spec_fn(T, T) -> bool, s: Seq<T>) -> bool {
    forall|i: int, j: int| 0 <= i < j < s.len() ==> !above(gt, s[i], s[j])
}

/// `x` is an element of `bag`, and strictly above none of them.
pub open spec fn least<T>(gt: spec_fn(T, T) -> bool, bag: Multiset<T>, x: T) -> bool {
    bag.contains(x) && forall|y: T| bag.contains(y) ==> !above(gt, x, y)
}

} // verus!

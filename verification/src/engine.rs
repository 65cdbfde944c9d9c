//! The engine behind the lazy sequence: a buffer, a stack of index ranges that
//! are not yet in order, and a quicksort that stops as soon as the next
//! element is known.

use crate::bag::{
    item, lemma_drop_last_bag, lemma_items_in_bag, lemma_swap_keeps_bag, lemma_swap_keeps_span,
    lemma_two_places, span, swap, swapped,
};
use crate::layers::{
    cut, layered, lemma_layers_pop, lemma_tiles_pop, lemma_tiles_push, tiles, tiles_below, whole,
};
use crate::model::{
    drained, lemma_drained_ascends, lemma_qsorted_pulls, partitioned, pulled_one, qsorted, scanned,
};
use crate::order::{accepts, ascending, at_most, echoes, greater, least, obeys, sorts};
use crate::policy::{
    law_partial_order, law_total_order, lawful_partial, natural, partial, partial_cmp_first,
    partial_cmp_last, placed, rules,
};
use std::cmp::Ordering;
use std::fmt::Debug;
use vstd::multiset::Multiset;
use vstd::prelude::*;
use vstd::std_specs::cmp::{OrdSpec, PartialOrdSpec};
use vstd::std_specs::iter::IteratorSpec;

verus! {

/// The index at which a range is split: its midpoint, nearer to `upper` when
/// the range holds an even number of indices.
pub fn pivot(lower: usize, upper: usize) -> (p: usize)
    requires
        upper <= lower,
    ensures
        p == upper + (lower - upper) / 2,
{
    upper + ((lower - upper) / 2)
}

/// A sequence that is sorted while it is read. It holds the elements that have
/// not come out yet, in a buffer whose tail is the next to be put in order.
pub struct LazySortIterator<T: Debug, F> {
    data: Vec<T>,
    work: Vec<(usize, usize)>,
    by: F,
}

impl<T: Debug, F> View for LazySortIterator<T, F> {
    type V = Multiset<T>;

    /// The elements that have not come out yet.
    open spec fn view(&self) -> Multiset<T> {
        self.buffer().to_multiset()
    }
}

impl<T: Debug, F> LazySortIterator<T, F> {
    /// The buffer: the elements that have not come out yet, as they lie in memory.
    pub closed spec fn buffer(&self) -> Seq<T> {
        self.data@
    }

    /// The stack of ranges, as pairs `(lower, upper)`, the top last.
    pub closed spec fn pending(&self) -> Seq<(usize, usize)> {
        self.work@
    }

    /// The comparator that this sequence was made with.
    pub closed spec fn comparator(&self) -> F {
        self.by
    }

    /// The pending ranges cover the buffer.
    pub open spec fn covered(&self) -> bool {
        tiles(self.pending(), self.buffer().len())
    }

    /// The range from `upper` to `lower` is the tail of the buffer, and the
    /// pending ranges cover what lies below it.
    pub open spec fn covered_below(&self, lower: usize, upper: usize) -> bool {
        &&& upper <= lower
        &&& lower + 1 == self.buffer().len()
        &&& tiles_below(self.pending(), upper)
    }

    /// Whatever order the comparator sorts by, the pending ranges are in that
    /// order among themselves: only inside a range is anything left to sort.
    pub open spec fn in_order(&self) -> bool where F: FnMut(&T, &T) -> Ordering {
        forall|gt: spec_fn(T, T) -> bool| #[trigger]
            sorts(self.comparator(), gt) ==> layered(gt, self.buffer(), self.pending())
    }

    /// The elements in the order in which they will come out, where the
    /// comparator answers as `gt` says.
    pub open spec fn to_come(&self, gt: spec_fn(T, T) -> bool) -> Seq<T> {
        drained(gt, self.buffer(), self.pending())
    }

    /// The state between two pulls.
    pub open spec fn wf(&self) -> bool where F: FnMut(&T, &T) -> Ordering {
        &&& self.covered()
        &&& accepts(self.comparator(), self@)
        &&& self.in_order()
    }

    /// The state in the middle of a pull, which works on the range from `upper`
    /// to `lower`.
    pub open spec fn working(&self, lower: usize, upper: usize) -> bool where
        F: FnMut(&T, &T) -> Ordering,
     {
        &&& self.covered_below(lower, upper)
        &&& accepts(self.comparator(), self@)
    }

    /// Takes the elements and the comparator, and compares nothing yet.
    pub fn new(data: Vec<T>, by: F) -> (it: Self) where F: FnMut(&T, &T) -> Ordering
        requires
            accepts(by, data@.to_multiset()),
        ensures
            it.buffer() == data@,
            it.pending() == whole(data@.len()),
            it.comparator() == by,
            it.wf(),
    {
        let l: usize = data.len();
        let mut work: Vec<(usize, usize)> = Vec::new();
        if l != 0 {
            work.push((l - 1, 0));
        }
        assert(work@ =~= whole(data@.len()));
        LazySortIterator { data: data, work: work, by: by }
    }

    /// Rearranges the range from `upper` to `lower` around the element at `p`,
    /// and returns the index at which that element then stands: before it
    /// stand the elements of the range that compared greater than it, after it
    /// those that compared less or equal.
    pub fn partition(&mut self, lower: usize, upper: usize, p: usize) -> (r: usize) where
        F: FnMut(&T, &T) -> Ordering,

        requires
            upper <= p <= lower,
            upper < lower ==> lower < old(self).buffer().len(),
            forall|k: int|
                upper <= k <= lower && k != p ==> call_requires(
                    old(self).comparator(),
                    (&#[trigger] old(self).buffer()[k], &item(old(self).buffer(), p)),
                ),
        ensures
            final(self).comparator() == old(self).comparator(),
            final(self).pending() == old(self).pending(),
            final(self).buffer().len() == old(self).buffer().len(),
            final(self)@ == old(self)@,
            upper <= r <= lower,
            upper == lower ==> r == p && final(self).buffer() == old(self).buffer(),
            upper < lower ==> item(final(self).buffer(), r) == item(old(self).buffer(), p),
            upper < lower ==> span(final(self).buffer(), upper, lower).to_multiset() == span(
                old(self).buffer(),
                upper,
                lower,
            ).to_multiset(),
            forall|k: int|
                0 <= k < old(self).buffer().len() && !(upper <= k <= lower)
                    ==> final(self).buffer()[k] == old(self).buffer()[k],
            forall|k: int|
                upper <= k < r ==> greater(
                    old(self).comparator(),
                    #[trigger] final(self).buffer()[k],
                    item(old(self).buffer(), p),
                ),
            forall|k: int|
                r < k <= lower ==> at_most(
                    old(self).comparator(),
                    #[trigger] final(self).buffer()[k],
                    item(old(self).buffer(), p),
                ),
            forall|gt: spec_fn(T, T) -> bool| #[trigger]
                obeys(old(self).comparator(), gt) ==> (final(self).buffer(), r) == partitioned(
                    gt,
                    old(self).buffer(),
                    lower,
                    upper,
                    p,
                ),
    {
        let length: usize = lower - upper;
        if length == 0 {
            p
        } else {
            let lasti: usize = lower;
            let (mut i, mut nextp): (usize, usize) = (upper, upper);
            let ghost start = self.data@;
            let ghost mid = item(start, p);
            proof {
                lemma_swap_keeps_bag(start, lasti, p);
                lemma_swap_keeps_span(start, upper, lower, lasti, p);
            }
            swap(&mut self.data, lasti, p);
            while i < lasti
                invariant
                    upper <= nextp <= i <= lasti,
                    lasti == lower,
                    upper < lower,
                    lower < start.len(),
                    self.data@.len() == start.len(),
                    self.by == old(self).by,
                    self.work == old(self).work,
                    start == old(self).data@,
                    mid == item(start, p),
                    item(self.data@, lasti) == mid,
                    self.data@.to_multiset() == start.to_multiset(),
                    span(self.data@, upper, lower).to_multiset() == span(
                        start,
                        upper,
                        lower,
                    ).to_multiset(),
                    forall|k: int|
                        0 <= k < start.len() && !(upper <= k <= lower) ==> self.data@[k]
                            == start[k],
                    forall|k: int|
                        upper <= k < lower ==> call_requires(
                            self.by,
                            (&#[trigger] self.data@[k], &mid),
                        ),
                    forall|k: int|
                        upper <= k < nextp ==> greater(self.by, #[trigger] self.data@[k], mid),
                    forall|k: int|
                        nextp <= k < i ==> at_most(self.by, #[trigger] self.data@[k], mid),
                    forall|gt: spec_fn(T, T) -> bool| #[trigger]
                        obeys(self.by, gt) ==> scanned(gt, self.data@, lasti, i, nextp) == scanned(
                            gt,
                            swapped(start, lasti, p),
                            lasti,
                            upper,
                            upper,
                        ),
                decreases lasti - i,
            {
                let ghost before = self.data@;
                let ghost (seen, front): (usize, usize) = (i, nextp);
                assert(call_requires(self.by, (&item(self.data@, i), &item(self.data@, lasti))));
                let o: Ordering = (self.by)(&self.data[i], &self.data[lasti]);
                match o {
                    Ordering::Greater => {
                        if i != nextp {
                            proof {
                                lemma_swap_keeps_bag(self.data@, i, nextp);
                                lemma_swap_keeps_span(self.data@, upper, lower, i, nextp);
                            }
                            swap(&mut self.data, i, nextp);
                        }
                        nextp = nextp + 1;
                    },
                    Ordering::Equal => (),
                    Ordering::Less => (),
                }
                i = i + 1;
                proof {
                    assert(call_ensures(self.by, (&item(before, seen), &item(before, lasti)), o));
                    assert(swapped(before, seen, seen) =~= before);
                    assert forall|gt: spec_fn(T, T) -> bool| #[trigger]
                        obeys(self.by, gt) implies scanned(gt, self.data@, lasti, i, nextp)
                        == scanned(gt, before, lasti, seen, front) by {
                        assert(gt(item(before, seen), item(before, lasti)) <==> o
                            == Ordering::Greater);
                    }
                }
            }
            proof {
                lemma_swap_keeps_bag(self.data@, nextp, lasti);
                lemma_swap_keeps_span(self.data@, upper, lower, nextp, lasti);
            }
            swap(&mut self.data, nextp, lasti);
            nextp
        }
    }

    /// Puts the range from `upper` to `lower`, which is the tail of the buffer,
    /// in order as far as its last element needs it, and takes that element
    /// out. What it splits off on the way is left on the stack.
    pub fn qsort(&mut self, lower: usize, upper: usize) -> (x: T) where F: FnMut(&T, &T) -> Ordering
        requires
            old(self).working(lower, upper),
        ensures
            final(self).covered(),
            accepts(final(self).comparator(), final(self)@),
            final(self).comparator() == old(self).comparator(),
            old(self)@ == final(self)@.insert(x),
            final(self).buffer().len() + 1 == old(self).buffer().len(),
            forall|k: int| 0 <= k < upper ==> final(self).buffer()[k] == old(self).buffer()[k],
            old(self).pending().is_prefix_of(final(self).pending()),
            forall|gt: spec_fn(T, T) -> bool| #[trigger]
                obeys(old(self).comparator(), gt) ==> (
                    x,
                    final(self).buffer(),
                    final(self).pending(),
                ) == qsorted(gt, old(self).buffer(), old(self).pending(), lower, upper),
            forall|gt: spec_fn(T, T) -> bool| #[trigger]
                sorts(old(self).comparator(), gt) && layered(
                    gt,
                    old(self).buffer(),
                    old(self).pending(),
                ) && cut(gt, old(self).buffer(), upper) ==> least(gt, old(self)@, x) && layered(
                    gt,
                    final(self).buffer(),
                    final(self).pending(),
                ),
        decreases lower - upper,
    {
        let ghost start = self.data@;
        let ghost stack = self.work@;
        proof {
            assert forall|gt: spec_fn(T, T) -> bool| #[trigger]
                sorts(self.by, gt) && layered(gt, start, stack) && cut(
                    gt,
                    start,
                    upper,
                ) implies pulled_one(
                gt,
                start,
                qsorted(gt, start, stack, lower, upper).0,
                qsorted(gt, start, stack, lower, upper).1,
                qsorted(gt, start, stack, lower, upper).2,
            ) by {
                lemma_qsorted_pulls(gt, start, stack, lower, upper);
            }
        }
        if lower == upper {
            proof {
                lemma_drop_last_bag(start);
                lemma_accepts_less(self.by, start.drop_last().to_multiset(), start.last());
            }
            return self.data.pop().expect("Non empty vector");
        }
        let p: usize = pivot(lower, upper);
        proof {
            lemma_items_in_bag(start);
            assert forall|k: int| upper <= k <= lower && k != p implies call_requires(
                self.by,
                (&#[trigger] start[k], &item(start, p)),
            ) by {
                if start[k] == item(start, p) {
                    lemma_two_places(start, k, p);
                }
            }
        }
        let p: usize = self.partition(lower, upper, p);
        // With nothing behind the pivot, the pivot itself is the next to come
        // out, and what stands before it waits; else the pivot waits with them.
        let (next_lower, next_upper): (usize, usize) = if p == lower {
            (p - 1, p)
        } else {
            (p, p + 1)
        };
        proof {
            lemma_tiles_push(stack, next_lower, upper);
        }
        self.work.push((next_lower, upper));
        self.qsort(lower, next_upper)
    }

    /// The next element in ascending order, or `None` when all have come out.
    pub fn next(&mut self) -> (r: Option<T>) where F: FnMut(&T, &T) -> Ordering
        requires
            old(self).wf(),
        ensures
            final(self).wf(),
            final(self).comparator() == old(self).comparator(),
            r is None <==> old(self).buffer().len() == 0,
            match r {
                Some(x) => {
                    &&& old(self)@ == final(self)@.insert(x)
                    &&& final(self).buffer().len() + 1 == old(self).buffer().len()
                    &&& forall|gt: spec_fn(T, T) -> bool| #[trigger]
                        sorts(old(self).comparator(), gt) ==> least(gt, old(self)@, x)
                },
                None => {
                    &&& final(self).buffer() == old(self).buffer()
                    &&& final(self).pending() == old(self).pending()
                },
            },
            forall|gt: spec_fn(T, T) -> bool| #[trigger]
                obeys(old(self).comparator(), gt) ==> old(self).to_come(gt) == match r {
                    Some(x) => seq![x] + final(self).to_come(gt),
                    None => Seq::empty(),
                },
    {
        let ghost stack = self.work@;
        proof {
            if stack.len() > 0 {
                lemma_tiles_pop(stack, self.data@.len());
                assert forall|gt: spec_fn(T, T) -> bool| #[trigger]
                    sorts(self.by, gt) implies layered(gt, self.data@, stack.drop_last()) && cut(
                    gt,
                    self.data@,
                    stack.last().1,
                ) by {
                    lemma_layers_pop(gt, self.data@, stack);
                }
            }
        }
        match self.work.pop() {
            Some(next_work) => {
                let (lower, upper) = next_work;
                Some(self.qsort(lower, upper))
            },
            None => None,
        }
    }

    /// How many elements are still to come: the same number as the lower and
    /// as the upper bound.
    pub fn size_hint(&self) -> (r: (usize, Option<usize>))
        ensures
            r.0 == self.buffer().len(),
            r.1 == Some(r.0),
    {
        let l: usize = self.data.len();
        (l, Some(l))
    }

    /// All the elements that are left, each pulled by `next`, in the order in
    /// which they came.
    pub fn collect(self) -> (out: Vec<T>) where F: FnMut(&T, &T) -> Ordering
        requires
            self.wf(),
        ensures
            out@.len() == self.buffer().len(),
            out@.to_multiset() == self@,
            forall|gt: spec_fn(T, T) -> bool| #[trigger]
                obeys(self.comparator(), gt) ==> out@ == self.to_come(gt),
            forall|gt: spec_fn(T, T) -> bool| #[trigger]
                sorts(self.comparator(), gt) ==> ascending(gt, out@),
    {
        let mut rest = self;
        let mut out: Vec<T> = Vec::new();
        proof {
            lemma_nothing_out(out@, rest@);
            assert forall|gt: spec_fn(T, T) -> bool| out@ + rest.to_come(gt) == self.to_come(
                gt,
            ) by {
                assert(out@ + rest.to_come(gt) =~= rest.to_come(gt));
            }
        }
        loop
            invariant
                rest.wf(),
                rest.comparator() == self.comparator(),
                out@.to_multiset().add(rest@) == self@,
                forall|gt: spec_fn(T, T) -> bool| #[trigger]
                    obeys(self.comparator(), gt) ==> out@ + rest.to_come(gt) == self.to_come(gt),
            ensures
                out@.to_multiset() == self@,
                forall|gt: spec_fn(T, T) -> bool| #[trigger]
                    obeys(self.comparator(), gt) ==> out@ == self.to_come(gt),
            decreases rest.buffer().len(),
        {
            let ghost bag = rest@;
            let ghost sofar = out@;
            let ghost prev = rest;
            match rest.next() {
                Some(x) => {
                    out.push(x);
                    proof {
                        lemma_pulled_one(sofar, bag, rest@, x);
                        assert forall|gt: spec_fn(T, T) -> bool| #[trigger]
                            obeys(self.comparator(), gt) implies out@ + rest.to_come(gt)
                            == self.to_come(gt) by {
                            assert(prev.to_come(gt) == seq![x] + rest.to_come(gt));
                            assert(out@ + rest.to_come(gt) =~= sofar + prev.to_come(gt));
                        }
                    }
                },
                None => {
                    proof {
                        lemma_nothing_left(out@, rest.buffer());
                        assert forall|gt: spec_fn(T, T) -> bool| #[trigger]
                            obeys(self.comparator(), gt) implies out@ == self.to_come(gt) by {
                            assert(prev.to_come(gt) == Seq::<T>::empty());
                            assert(out@ + prev.to_come(gt) =~= out@);
                        }
                    }
                    break ;
                },
            }
        }
        proof {
            vstd::seq_lib::to_multiset_len(out@);
            vstd::seq_lib::to_multiset_len(self.buffer());
            assert forall|gt: spec_fn(T, T) -> bool| #[trigger]
                sorts(self.comparator(), gt) implies ascending(gt, out@) by {
                lemma_drained_ascends(gt, self.buffer(), self.pending());
            }
        }
        out
    }
}

/// What accepts a bag accepts the bag without one of its elements.
proof fn lemma_accepts_less<T, F>(by: F, bag: Multiset<T>, x: T) where F: FnMut(&T, &T) -> Ordering
    ensures
        accepts(by, bag.insert(x)) ==> accepts(by, bag),
{
    broadcast use vstd::multiset::group_multiset_axioms;

    assert forall|a: T| bag.count(a) <= #[trigger] bag.insert(x).count(a) by {}
    if accepts(by, bag.insert(x)) {
        assert forall|a: T, b: T|
            bag.contains(a) && bag.contains(b) && (a != b || bag.count(a) > 1)
            implies #[trigger] call_requires(by, (&a, &b)) by {
            assert(bag.count(a) <= bag.insert(x).count(a));
            assert(bag.count(b) <= bag.insert(x).count(b));
        }
    }
}

/// One pull moves `x` from what is left to what has come out, and the two
/// together stay what they were.
proof fn lemma_pulled_one<T>(sofar: Seq<T>, bag: Multiset<T>, left: Multiset<T>, x: T)
    requires
        bag == left.insert(x),
    ensures
        sofar.push(x).to_multiset().add(left) == sofar.to_multiset().add(bag),
        forall|y: T| left.contains(y) ==> bag.contains(y),
        bag.contains(x),
{
    broadcast use vstd::seq_lib::group_to_multiset_ensures;
    broadcast use vstd::multiset::group_multiset_axioms;

    assert(sofar.push(x).to_multiset().add(left) =~= sofar.to_multiset().add(bag));
}

/// Before the first pull, all there is is still left.
proof fn lemma_nothing_out<T>(out: Seq<T>, bag: Multiset<T>)
    requires
        out.len() == 0,
    ensures
        out.to_multiset().add(bag) == bag,
{
    broadcast use vstd::seq_lib::group_to_multiset_ensures;
    broadcast use vstd::multiset::group_multiset_axioms;

    assert(out.to_multiset().len() == 0);
    assert(out.to_multiset().add(bag) =~= bag);
}

/// With an empty buffer, what has come out is all there was.
proof fn lemma_nothing_left<T>(out: Seq<T>, buffer: Seq<T>)
    requires
        buffer.len() == 0,
    ensures
        out.to_multiset().add(buffer.to_multiset()) == out.to_multiset(),
{
    broadcast use vstd::seq_lib::group_to_multiset_ensures;
    broadcast use vstd::multiset::group_multiset_axioms;

    assert(buffer.to_multiset().len() == 0);
    assert(out.to_multiset().add(buffer.to_multiset()) =~= out.to_multiset());
}

/// Takes every element that `input` yields, in the order in which it yields them.
fn drain<I: Iterator>(input: I) -> (data: Vec<I::Item>)
    requires
        input.obeys_prophetic_iter_laws(),
        input.decrease() is Some,
    ensures
        data@ == input.remaining(),
{
    let mut rest = input;
    let mut data: Vec<I::Item> = Vec::new();
    loop
        invariant
            rest.obeys_prophetic_iter_laws(),
            rest.decrease() is Some,
            data@ + rest.remaining() == input.remaining(),
        ensures
            data@ == input.remaining(),
        decreases rest.decrease()->0,
    {
        match rest.next() {
            Some(x) => {
                data.push(x);
                assert(data@ + rest.remaining() =~= input.remaining());
            },
            None => {
                assert(data@ + rest.remaining() =~= data@);
                break ;
            },
        }
    }
    data
}

/// The elements of `input`, lazily sorted by their total order.
pub fn sorted<T, I>(input: I) -> (it: LazySortIterator<T, impl Fn(&T, &T) -> Ordering>) where
    T: Debug + Eq + Ord,
    I: Iterator<Item = T>,

    requires
        input.obeys_prophetic_iter_laws(),
        input.decrease() is Some,
    ensures
        it.buffer() == input.remaining(),
        it.pending() == whole(input.remaining().len()),
        it.wf(),
        echoes(it.comparator(), T::cmp),
        T::obeys_cmp_spec() ==> obeys(it.comparator(), natural::<T>()),
        vstd::laws_cmp::obeys_cmp::<T>() && vstd::laws_eq::obeys_concrete_eq::<T>() ==> sorts(
            it.comparator(),
            natural::<T>(),
        ),
{
    proof {
        if vstd::laws_cmp::obeys_cmp::<T>() && vstd::laws_eq::obeys_concrete_eq::<T>() {
            law_total_order::<T>();
            reveal(vstd::laws_cmp::obeys_cmp_ord);
        }
    }
    LazySortIterator::new(drain(input), T::cmp)
}

/// The elements of `input`, lazily sorted by their partial order. A pair that
/// this order leaves open compares as `Less` when `first` is set, as `Greater`
/// when it is not.
pub fn sorted_partial<T, I>(input: I, first: bool) -> (it: LazySortIterator<
    T,
    impl Fn(&T, &T) -> Ordering,
>) where T: Debug + PartialOrd, I: Iterator<Item = T>
    requires
        input.obeys_prophetic_iter_laws(),
        input.decrease() is Some,
    ensures
        it.buffer() == input.remaining(),
        it.pending() == whole(input.remaining().len()),
        it.wf(),
        forall|a: T, b: T, o: Ordering| #[trigger]
            call_ensures(it.comparator(), (&a, &b), o) ==> rules(first, a, b, o),
        T::obeys_partial_cmp_spec() ==> obeys(it.comparator(), partial::<T>(first)),
        T::obeys_partial_cmp_spec() && lawful_partial::<T>() ==> sorts(
            it.comparator(),
            partial::<T>(first),
        ),
{
    proof {
        if lawful_partial::<T>() {
            law_partial_order::<T>(first);
        }
    }
    let by = move |a: &T, b: &T| -> (o: Ordering)
        ensures
            rules(first, *a, *b, o),
            T::obeys_partial_cmp_spec() ==> o == placed(first, a.partial_cmp_spec(b)),
        {
            if first {
                partial_cmp_first(a, b)
            } else {
                partial_cmp_last(a, b)
            }
        };
    LazySortIterator::new(drain(input), by)
}

/// Lazy sorting by a comparator of the caller's own, for everything that
/// yields its elements one by one.
pub trait SortedBy: Iterator + Sized where Self::Item: Debug {
    /// The elements that `self` yields, lazily sorted by `by`.
    fn sorted_by<F>(self, by: F) -> (it: LazySortIterator<Self::Item, F>) where
        F: Fn(&Self::Item, &Self::Item) -> Ordering,

        requires
            self.obeys_prophetic_iter_laws(),
            self.decrease() is Some,
            accepts(by, self.remaining().to_multiset()),
        ensures
            it.buffer() == self.remaining(),
            it.pending() == whole(self.remaining().len()),
            it.comparator() == by,
            it.wf(),
    ;
}

impl<T, I> SortedBy for I where T: Debug, I: Iterator<Item = T> {
    fn sorted_by<F>(self, by: F) -> (it: LazySortIterator<T, F>) where F: Fn(&T, &T) -> Ordering {
        LazySortIterator::new(drain(self), by)
    }
}

} // verus!

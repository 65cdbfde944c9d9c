use lazysort::{pivot, LazySortIterator};
use std::cmp::Ordering;

fn numbers(n: usize, seed: u64, modulus: u64) -> Vec<u64> {
    let mut state = seed;
    let mut out = Vec::with_capacity(n);
    for _ in 0..n {
        state = state.wrapping_mul(6364136223846793005).wrapping_add(1442695040888963407);
        out.push((state >> 33) % modulus);
    }
    out
}

fn ascending(a: &u64, b: &u64) -> Ordering {
    a.cmp(b)
}

#[test]
fn pivot_is_the_midpoint() {
    assert_eq!(pivot(8, 0), 4);
    assert_eq!(pivot(10, 4), 7);
    assert_eq!(pivot(2, 0), 1);
}

#[test]
fn pivot_leans_to_upper_on_an_even_count() {
    assert_eq!(pivot(3, 0), 1);
    assert_eq!(pivot(1, 0), 0);
    assert_eq!(pivot(7, 4), 5);
}

#[test]
fn pivot_of_a_single_index_is_that_index() {
    assert_eq!(pivot(0, 0), 0);
    assert_eq!(pivot(5, 5), 5);
    assert_eq!(pivot(usize::MAX, usize::MAX), usize::MAX);
    assert_eq!(pivot(usize::MAX, 0), usize::MAX / 2);
}

#[test]
fn new_compares_nothing() {
    let mut calls = 0usize;
    {
        let it = LazySortIterator::new(vec![3u64, 1, 2], |a: &u64, b: &u64| {
            calls += 1;
            a.cmp(b)
        });
        assert_eq!(it.size_hint(), (3, Some(3)));
    }
    assert_eq!(calls, 0);
}

#[test]
fn partition_returns_where_the_pivot_lands() {
    let mut it = LazySortIterator::new(vec![9u64, 7, 1, 1, 6, 3, 1, 4, 22], ascending);
    // Around the 6 at index 4: 9, 7 and 22 are greater.
    assert_eq!(it.partition(8, 0, 4), 3);
    assert_eq!(it.size_hint(), (9, Some(9)));
    assert_eq!(it.collect(), vec![1, 1, 1, 3, 4, 6, 7, 9, 22]);
}

#[test]
fn partition_around_the_greatest_puts_it_first() {
    let mut it = LazySortIterator::new(vec![5u64, 30, 10, 20], ascending);
    assert_eq!(it.partition(3, 0, 1), 0);
    assert_eq!(it.next(), Some(5));
}

#[test]
fn partition_around_the_least_leaves_it_last() {
    let mut it = LazySortIterator::new(vec![5u64, 30, 10, 20], ascending);
    assert_eq!(it.partition(3, 0, 0), 3);
    assert_eq!(it.collect(), vec![5, 10, 20, 30]);
}

#[test]
fn partition_counts_equal_elements_as_not_greater() {
    let mut it = LazySortIterator::new(vec![4u64, 4, 4, 4], ascending);
    assert_eq!(it.partition(3, 0, 2), 0);
    assert_eq!(it.collect(), vec![4, 4, 4, 4]);
}

#[test]
fn partition_of_an_inner_range_leaves_the_rest() {
    let mut it = LazySortIterator::new(vec![1u64, 8, 6, 7, 0], ascending);
    // Indices 1 to 3 around the 6: 8 and 7 are greater.
    assert_eq!(it.partition(3, 1, 2), 3);
    assert_eq!(it.size_hint(), (5, Some(5)));
    assert_eq!(it.collect(), vec![0, 1, 6, 7, 8]);
}

#[test]
fn partition_of_a_single_index_returns_it() {
    let mut it = LazySortIterator::new(vec![2u64, 1, 3], ascending);
    assert_eq!(it.partition(1, 1, 1), 1);
    assert_eq!(it.partition(0, 0, 0), 0);
    assert_eq!(it.collect(), vec![1, 2, 3]);
}

#[test]
fn next_hands_out_the_least_each_time() {
    let mut it = LazySortIterator::new(vec![9u64, 7, 1, 1, 6, 3, 1, 4, 22], ascending);
    assert_eq!(it.next(), Some(1));
    assert_eq!(it.next(), Some(1));
    assert_eq!(it.next(), Some(1));
    assert_eq!(it.next(), Some(3));
    assert_eq!(it.next(), Some(4));
    assert_eq!(it.next(), Some(6));
    assert_eq!(it.next(), Some(7));
    assert_eq!(it.next(), Some(9));
    assert_eq!(it.next(), Some(22));
    assert_eq!(it.next(), None);
}

#[test]
fn next_stays_none_when_all_have_come() {
    let mut it = LazySortIterator::new(vec![2u64, 1], ascending);
    assert_eq!(it.next(), Some(1));
    assert_eq!(it.next(), Some(2));
    assert_eq!(it.next(), None);
    assert_eq!(it.next(), None);
    assert_eq!(it.size_hint(), (0, Some(0)));
}

#[test]
fn next_on_one_element() {
    let mut it = LazySortIterator::new(vec![42u64], ascending);
    assert_eq!(it.size_hint(), (1, Some(1)));
    assert_eq!(it.next(), Some(42));
    assert_eq!(it.next(), None);
}

#[test]
fn next_on_nothing() {
    let mut it = LazySortIterator::new(Vec::<u64>::new(), ascending);
    assert_eq!(it.size_hint(), (0, Some(0)));
    assert_eq!(it.next(), None);
    assert_eq!(it.size_hint(), (0, Some(0)));
}

#[test]
fn size_hint_counts_down_with_each_pull() {
    let mut it = LazySortIterator::new(numbers(50, 7, 1000), ascending);
    let mut left = 50usize;
    loop {
        assert_eq!(it.size_hint(), (left, Some(left)));
        if it.next().is_none() {
            break;
        }
        left -= 1;
    }
    assert_eq!(left, 0);
}

#[test]
fn collect_gives_what_is_left() {
    let mut it = LazySortIterator::new(vec![5u64, 3, 8, 1, 9, 2], ascending);
    assert_eq!(it.next(), Some(1));
    assert_eq!(it.next(), Some(2));
    assert_eq!(it.collect(), vec![3, 5, 8, 9]);
}

#[test]
fn collect_of_nothing_is_empty() {
    let it = LazySortIterator::new(Vec::<u64>::new(), ascending);
    assert_eq!(it.collect(), Vec::<u64>::new());
}

#[test]
fn a_descending_comparator_sorts_downwards() {
    let it = LazySortIterator::new(vec![2u64, 9, 4, 4, 1], |a: &u64, b: &u64| b.cmp(a));
    assert_eq!(it.collect(), vec![9, 4, 4, 2, 1]);
}

#[test]
fn sorted_and_reversed_inputs_come_out_sorted() {
    let up: Vec<u64> = (0..100).collect();
    let down: Vec<u64> = (0..100).rev().collect();
    assert_eq!(LazySortIterator::new(up.clone(), ascending).collect(), up);
    assert_eq!(LazySortIterator::new(down, ascending).collect(), up);
}

#[test]
fn elements_that_are_not_copy_are_moved_out() {
    let words = vec!["pear".to_string(), "fig".to_string(), "apple".to_string()];
    let mut it = LazySortIterator::new(words, |a: &String, b: &String| a.cmp(b));
    assert_eq!(it.next(), Some("apple".to_string()));
    assert_eq!(it.next(), Some("fig".to_string()));
    assert_eq!(it.next(), Some("pear".to_string()));
    assert_eq!(it.next(), None);
}

#[test]
fn dropping_a_half_read_sequence_is_safe() {
    let mut it = LazySortIterator::new(numbers(1000, 3, 50), ascending);
    for _ in 0..10 {
        assert!(it.next().is_some());
    }
    assert_eq!(it.size_hint(), (990, Some(990)));
    drop(it);
}

use lazysort::{
    partial_cmp_first, partial_cmp_last, sorted, sorted_partial, LazySortIterator, SortedBy,
};
use std::cmp::Ordering;

fn sample(n: usize, seed: u64, modulus: u64) -> Vec<u64> {
    let mut state = seed;
    let mut out = Vec::with_capacity(n);
    for _ in 0..n {
        state = state.wrapping_mul(6364136223846793005).wrapping_add(1442695040888963407);
        out.push((state >> 33) % modulus);
    }
    out
}

fn reference(input: &[u64]) -> Vec<u64> {
    let mut all = input.to_vec();
    all.sort();
    all
}

#[test]
fn a_whole_drain_is_the_reference_sort() {
    let cases = [(1usize, 1u64, 10u64), (2, 2, 10), (17, 3, 5), (100, 4, 1000), (1000, 5, 7)];
    for (n, seed, modulus) in cases {
        let input = sample(n, seed, modulus);
        let out: Vec<u64> = sorted(input.clone().into_iter()).collect();
        assert_eq!(out, reference(&input));
    }
}

#[test]
fn small_inputs_of_every_length_come_out_sorted() {
    for n in 0..40usize {
        for seed in 0..25u64 {
            let input = sample(n, 1000 * seed + n as u64, 1 + seed % 9);
            let out: Vec<u64> = sorted(input.clone().into_iter()).collect();
            assert_eq!(out, reference(&input));
        }
    }
}

#[test]
fn pulls_and_a_drain_of_the_rest_make_up_the_reference_sort() {
    let input = sample(300, 77, 40);
    let expected = reference(&input);
    for k in [0usize, 1, 150, 299, 300] {
        let mut it = sorted(input.clone().into_iter());
        let mut got = Vec::new();
        for _ in 0..k {
            got.push(it.next().unwrap());
        }
        got.extend(it.collect());
        assert_eq!(got, expected);
    }
}

#[test]
fn a_whole_drain_keeps_every_element() {
    let input = sample(500, 11, 20);
    let out: Vec<u64> = sorted(input.clone().into_iter()).collect();
    assert_eq!(out.len(), input.len());
    for v in 0..20u64 {
        let before = input.iter().filter(|x| **x == v).count();
        let after = out.iter().filter(|x| **x == v).count();
        assert_eq!(before, after);
    }
}

#[test]
fn the_first_pulls_are_the_start_of_the_reference_sort() {
    let input = sample(20_000, 21, 1_000_000);
    let expected = reference(&input);
    for k in [0usize, 1, 2, 10, 137] {
        let mut it = sorted(input.clone().into_iter());
        let mut got = Vec::new();
        for _ in 0..k {
            got.push(it.next().unwrap());
        }
        assert_eq!(got, expected[..k].to_vec());
        assert_eq!(it.size_hint(), (input.len() - k, Some(input.len() - k)));
    }
}

#[test]
fn the_first_pulls_cost_fewer_comparisons_than_a_whole_drain() {
    let input = sample(20_000, 22, 1_000_000);
    let mut few = 0usize;
    {
        let mut it = LazySortIterator::new(input.clone(), |a: &u64, b: &u64| {
            few += 1;
            a.cmp(b)
        });
        for _ in 0..5 {
            it.next();
        }
    }
    let mut all = 0usize;
    {
        let it = LazySortIterator::new(input.clone(), |a: &u64, b: &u64| {
            all += 1;
            a.cmp(b)
        });
        it.collect();
    }
    assert!(few >= input.len() - 1);
    assert!(few * 2 < all);
}

#[test]
fn two_drains_of_one_input_agree() {
    let input = sample(300, 31, 100);
    let one: Vec<u64> = sorted(input.clone().into_iter()).collect();
    let other: Vec<u64> = sorted(input.clone().into_iter()).collect();
    assert_eq!(one, other);
    let third: Vec<u64> = sorted_partial(input.clone().into_iter(), true).collect();
    let fourth: Vec<u64> = sorted_partial(input.into_iter(), false).collect();
    assert_eq!(one, third);
    assert_eq!(one, fourth);
}

#[test]
fn two_drains_agree_also_on_elements_that_compare_equal() {
    let keys = sample(400, 32, 6);
    let pairs: Vec<(u64, usize)> = keys.iter().cloned().zip(0..).collect();
    let one: Vec<(u64, usize)> =
        pairs.clone().into_iter().sorted_by(|a, b| a.0.cmp(&b.0)).collect();
    let other: Vec<(u64, usize)> = pairs
        .clone()
        .into_iter()
        .sorted_by(|a, b| if a.0 > b.0 { Ordering::Greater } else { Ordering::Less })
        .collect();
    assert_eq!(one, other);
}

#[test]
fn sorting_by_a_key_sorts_the_keys() {
    let keys = sample(200, 41, 50);
    let pairs: Vec<(u64, usize)> = keys.iter().cloned().zip(0..).collect();
    let out: Vec<(u64, usize)> =
        pairs.clone().into_iter().sorted_by(|a, b| a.0.cmp(&b.0)).collect();
    let out_keys: Vec<u64> = out.iter().map(|p| p.0).collect();
    assert_eq!(out_keys, reference(&keys));
    let mut ids: Vec<usize> = out.iter().map(|p| p.1).collect();
    ids.sort();
    assert_eq!(ids, (0..200).collect::<Vec<usize>>());
}

#[test]
fn sorting_by_the_second_field() {
    let input = vec![(7u64, 'c'), (1, 'a'), (9, 'd'), (4, 'b')];
    let out: Vec<(u64, char)> = input.into_iter().sorted_by(|a, b| a.1.cmp(&b.1)).collect();
    assert_eq!(out, vec![(1, 'a'), (4, 'b'), (7, 'c'), (9, 'd')]);
}

#[test]
fn an_empty_input_is_exhausted_at_once() {
    let mut it = sorted(Vec::<u64>::new().into_iter());
    assert_eq!(it.size_hint(), (0, Some(0)));
    assert_eq!(it.next(), None);
    let mut partial = sorted_partial(Vec::<f64>::new().into_iter(), false);
    assert_eq!(partial.size_hint(), (0, Some(0)));
    assert_eq!(partial.next(), None);
    let mut by = Vec::<u64>::new().into_iter().sorted_by(|a, b| a.cmp(b));
    assert_eq!(by.size_hint(), (0, Some(0)));
    assert_eq!(by.next(), None);
}

#[test]
fn sorted_partial_with_either_rule_sorts_what_can_be_compared() {
    let before: Vec<f64> = vec![1.0, 1.1, 0.9, 75.3, 1.0, 75.3];
    let expected: Vec<f64> = vec![0.9, 1.0, 1.0, 1.1, 75.3, 75.3];
    let first: Vec<f64> = sorted_partial(before.clone().into_iter(), true).collect();
    let last: Vec<f64> = sorted_partial(before.into_iter(), false).collect();
    assert_eq!(first, expected);
    assert_eq!(last, expected);
}

#[test]
fn sorted_partial_never_puts_a_greater_element_before_a_smaller() {
    let nan = f64::NAN;
    let inputs: Vec<Vec<f64>> = vec![
        vec![1.0, nan, 2.0],
        vec![nan, 1.0, 2.0],
        vec![2.0, 1.0, nan],
        vec![3.0, nan, 1.0, 2.0, nan, 0.5],
        vec![nan, nan],
        vec![nan],
        vec![5.0, 4.0, nan, 3.0, nan, 2.0, nan, 1.0],
    ];
    for input in inputs {
        for first in [true, false] {
            let out: Vec<f64> = sorted_partial(input.clone().into_iter(), first).collect();
            assert_eq!(out.len(), input.len());
            let open_before = input.iter().filter(|x| x.is_nan()).count();
            let open_after = out.iter().filter(|x| x.is_nan()).count();
            assert_eq!(open_before, open_after);
            for i in 0..out.len() {
                for j in (i + 1)..out.len() {
                    assert!(out[i].partial_cmp(&out[j]) != Some(Ordering::Greater));
                }
            }
            let mut known: Vec<f64> = input.iter().cloned().filter(|x| !x.is_nan()).collect();
            known.sort_by(|a, b| a.partial_cmp(b).unwrap());
            let got: Vec<f64> = out.iter().cloned().filter(|x| !x.is_nan()).collect();
            assert_eq!(got, known);
        }
    }
}

#[test]
fn partial_cmp_first_follows_the_order_where_there_is_one() {
    assert_eq!(partial_cmp_first(&1.0f64, &2.0), Ordering::Less);
    assert_eq!(partial_cmp_first(&2.0f64, &1.0), Ordering::Greater);
    assert_eq!(partial_cmp_first(&1.5f64, &1.5), Ordering::Equal);
    assert_eq!(partial_cmp_first(&3u64, &4), Ordering::Less);
}

#[test]
fn partial_cmp_first_calls_an_open_pair_less() {
    let nan = f64::NAN;
    assert_eq!(partial_cmp_first(&nan, &1.0), Ordering::Less);
    assert_eq!(partial_cmp_first(&1.0, &nan), Ordering::Less);
    assert_eq!(partial_cmp_first(&nan, &nan), Ordering::Less);
}

#[test]
fn partial_cmp_last_follows_the_order_where_there_is_one() {
    assert_eq!(partial_cmp_last(&1.0f64, &2.0), Ordering::Less);
    assert_eq!(partial_cmp_last(&2.0f64, &1.0), Ordering::Greater);
    assert_eq!(partial_cmp_last(&1.5f64, &1.5), Ordering::Equal);
    assert_eq!(partial_cmp_last(&4u64, &3), Ordering::Greater);
}

#[test]
fn partial_cmp_last_calls_an_open_pair_greater() {
    let nan = f64::NAN;
    assert_eq!(partial_cmp_last(&nan, &1.0), Ordering::Greater);
    assert_eq!(partial_cmp_last(&1.0, &nan), Ordering::Greater);
    assert_eq!(partial_cmp_last(&nan, &nan), Ordering::Greater);
}

#[test]
fn sorted_takes_any_iterator() {
    let out: Vec<u64> = sorted((1..=5u64).rev()).collect();
    assert_eq!(out, vec![1, 2, 3, 4, 5]);
    let doubled: Vec<u64> = sorted(vec![3u64, 1, 2].into_iter().map(|x| x * 2)).collect();
    assert_eq!(doubled, vec![2, 4, 6]);
}

use lazysort::{sorted, sorted_partial, SortedBy};

#[test]
fn sorted_test() {
    let expected: Vec<u64> = vec![1u64, 1, 1, 3, 4, 6, 7, 9, 22];
    let before: Vec<u64> = vec![9u64, 7, 1, 1, 6, 3, 1, 4, 22];
    let after: Vec<u64> = sorted(before.iter()).collect().into_iter().map(|x| *x).collect();

    assert_eq!(expected, after);
}

#[test]
fn empty_test() {
    let before: Vec<u64> = vec![];
    let after: Vec<u64> = sorted(before.iter()).collect().into_iter().map(|x| *x).collect();
    assert_eq!(before, after);
}

#[test]
fn sorted_partial_test() {
    let expected: Vec<f64> = vec![0.9_f64, 1.0, 1.0, 1.1, 75.3, 75.3];
    let before: Vec<f64> = vec![1.0_f64, 1.1, 0.9, 75.3, 1.0, 75.3];
    let after: Vec<f64> =
        sorted_partial(before.iter(), true).collect().into_iter().map(|x| *x).collect();

    assert_eq!(expected, after);
}

#[test]
fn sorted_by_test() {
    let expected: Vec<u64> = vec![4, 1, 3, 2];
    let before: Vec<(f64, u64)> = vec![(0.2, 1), (0.9, 2), (0.4, 3), (0.1, 4)];

    let after: Vec<u64> = before
        .iter()
        .sorted_by(|&a, &b| {
            let (ax, _) = *a;
            let (bx, _) = *b;
            ax.partial_cmp(&bx).unwrap()
        })
        .collect()
        .into_iter()
        .map(|&(_, y)| y)
        .collect();

    assert_eq!(expected, after);
}

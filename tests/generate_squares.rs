use quasi_magic::generate_squares::{
    batch_count, batch_numbers, batch_process, batch_size, square_batch, PrecomputedPerfectSquares,
    SumOfSquaresIndex, can_be_sum_of_two_squares, find_sum_of_squares_pairs,
    generate_squares_sum_fast, is_perfect_square, precompute_perfect_squares, process_n,
};

fn brute_pairs(n: u64) -> Vec<(u64, u64)> {
    let mut out = Vec::new();
    let mut x = 0u64;
    while 2 * x * x <= n {
        let mut y = x;
        while x * x + y * y < n {
            y += 1;
        }
        if x * x + y * y == n {
            out.push((x, y));
        }
        x += 1;
    }
    out
}

#[test]
fn perfect_square_examples() {
    assert_eq!(is_perfect_square(49), (true, 7));
    assert_eq!(is_perfect_square(50), (false, 0));
    assert_eq!(is_perfect_square(0), (true, 0));
    assert_eq!(is_perfect_square(1), (true, 1));
    assert_eq!(is_perfect_square(u64::MAX), (false, 0));
    assert_eq!(is_perfect_square(4_294_967_295u64 * 4_294_967_295), (true, 4_294_967_295));
}

#[test]
fn pairs_of_twenty_five() {
    assert_eq!(find_sum_of_squares_pairs(25), vec![(0, 5), (3, 4)]);
    assert_eq!(find_sum_of_squares_pairs(0), vec![(0, 0)]);
    assert_eq!(find_sum_of_squares_pairs(50), vec![(1, 7), (5, 5)]);
    assert_eq!(find_sum_of_squares_pairs(325), vec![(1, 18), (6, 17), (10, 15)]);
    assert_eq!(find_sum_of_squares_pairs(3), vec![]);
    assert_eq!(find_sum_of_squares_pairs(21), vec![]);
}

#[test]
fn two_squares_filter_matches_brute_force() {
    for n in 0..10_000u64 {
        let brute = brute_pairs(n);
        assert_eq!(can_be_sum_of_two_squares(n), !brute.is_empty(), "n = {}", n);
    }
}

#[test]
fn pairs_are_ordered_and_complete() {
    for n in 0..3_000u64 {
        let pairs = find_sum_of_squares_pairs(n);
        for &(x, y) in &pairs {
            assert!(x <= y);
            assert_eq!(x * x + y * y, n);
        }
        for w in pairs.windows(2) {
            assert!(w[0].0 < w[1].0);
        }
        assert_eq!(pairs, brute_pairs(n));
    }
}

#[test]
fn pairs_near_the_top_of_the_range() {
    let n = u64::MAX - 1;
    for (x, y) in find_sum_of_squares_pairs(n) {
        assert!(x <= y);
        assert_eq!((x as u128) * (x as u128) + (y as u128) * (y as u128), n as u128);
    }
}

#[test]
fn process_n_keeps_only_numbers_with_pairs() {
    assert_eq!(process_n(25), Some((25, vec![(0, 5), (3, 4)])));
    assert_eq!(process_n(3), None);
    let batch = [1u64, 2, 3, 4, 5, 6, 7];
    let out = batch_process(&batch);
    let keys: Vec<u64> = out.iter().map(|e| e.0).collect();
    assert_eq!(keys, vec![1, 2, 4, 5]);
    assert_eq!(out[3].1, vec![(1, 2)]);
}

#[test]
fn batch_size_formula() {
    assert_eq!(batch_size(1000, 4), 31);
    assert_eq!(batch_size(10, 4), 1);
    assert_eq!(batch_size(0, 1), 1);
    assert_eq!(batch_size(u64::MAX, 1), u64::MAX / 8);
    assert_eq!(batch_size(1601, 8), 25);
}

#[test]
fn index_round_trip() {
    let max = 2_000u64;
    let index = generate_squares_sum_fast(max);
    assert_eq!(index.max(), max);
    for n in 1..=max {
        let direct = find_sum_of_squares_pairs(n);
        match index.get(n) {
            Some(pairs) => {
                assert!(!pairs.is_empty());
                assert_eq!(*pairs, direct);
            }
            None => assert!(direct.is_empty(), "n = {}", n),
        }
    }
    assert!(index.get(0).is_none());
    assert!(index.get(max + 1).is_none());
    assert_eq!(index.get(25), Some(&vec![(0, 5), (3, 4)]));
}

#[test]
fn perfect_square_table_answers() {
    let table = precompute_perfect_squares(100);
    assert_eq!(table.max(), 100);
    assert_eq!(table.get(49), Some((true, 7)));
    assert_eq!(table.get(0), Some((true, 0)));
    assert_eq!(table.get(100), Some((true, 10)));
    assert_eq!(table.get(50), None);
    assert_eq!(table.get(121), Some((true, 11)));
    assert_eq!(table.get(122), Some((false, 0)));
}

#[test]
fn batch_process_keeps_order_and_repeats() {
    let batch = [5u64, 3, 25, 5, 2];
    let out = batch_process(&batch);
    let keys: Vec<u64> = out.iter().map(|e| e.0).collect();
    assert_eq!(keys, vec![5, 25, 5, 2]);
    assert_eq!(out[1].1, vec![(0, 5), (3, 4)]);
    assert!(batch_process(&[]).is_empty());
}

#[test]
fn batches_cover_the_range() {
    assert_eq!(batch_count(10, 3), 4);
    assert_eq!(batch_count(9, 3), 3);
    assert_eq!(batch_count(0, 5), 0);
    assert_eq!(batch_count(u64::MAX, 1), u64::MAX);
    assert_eq!(batch_numbers(10, 3, 0), vec![1, 2, 3]);
    assert_eq!(batch_numbers(10, 3, 3), vec![10]);
    assert_eq!(batch_numbers(u64::MAX, 2, u64::MAX / 2), vec![u64::MAX]);
}

#[test]
fn index_from_batch_results_matches_direct_build() {
    let max = 500u64;
    let bs = 7u64;
    let nb = batch_count(max, bs);
    let mut results = Vec::new();
    for b in (0..nb).rev() {
        results.push((b, batch_process(&batch_numbers(max, bs, b))));
    }
    results.sort_by_key(|r| r.0);
    let results: Vec<_> = results.into_iter().map(|r| r.1).collect();
    let index = SumOfSquaresIndex::from_batch_results(max, bs, results);
    let direct = generate_squares_sum_fast(max);
    assert_eq!(index.max(), max);
    for n in 0..=max + 1 {
        assert_eq!(index.get(n), direct.get(n), "n = {}", n);
    }
}

#[test]
fn square_batch_keeps_order_and_repeats() {
    let out = square_batch(&[10, 9, 0, 9, 50, 49]);
    assert_eq!(out, vec![(9, (true, 3)), (0, (true, 0)), (9, (true, 3)), (49, (true, 7))]);
}

#[test]
fn table_from_batch_results_matches_direct_build() {
    let max = 300u64;
    let bs = 11u64;
    let nb = batch_count(max, bs);
    let results: Vec<_> = (0..nb).map(|b| square_batch(&batch_numbers(max, bs, b))).collect();
    let table = PrecomputedPerfectSquares::from_batch_results(max, bs, results);
    let direct = precompute_perfect_squares(max);
    assert_eq!(table.max(), max);
    for n in 0..=max + 20 {
        assert_eq!(table.get(n), direct.get(n), "n = {}", n);
    }
    assert_eq!(table.get(0), Some((true, 0)));
    assert_eq!(table.get(289), Some((true, 17)));
}

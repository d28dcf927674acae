use quasi_magic::utils::{
    bit_length, can_be_written_as_sum_of_three_squares, is_prime, nonsymetric_permutations_3,
};

#[test]
fn test_nonsymetric_permutations_3() {
    let input_4 = &[(0, 0), (1, 1), (2, 2), (3, 3)];
    let expected_4 = vec![
        ((0, 0), (1, 1), (2, 2)),
        ((0, 0), (1, 1), (3, 3)),
        ((0, 0), (2, 2), (3, 3)),
        ((1, 1), (0, 0), (2, 2)),
        ((1, 1), (0, 0), (3, 3)),
        ((1, 1), (2, 2), (3, 3)),
        ((2, 2), (0, 0), (1, 1)),
        ((2, 2), (0, 0), (3, 3)),
        ((2, 2), (1, 1), (3, 3)),
        ((3, 3), (0, 0), (1, 1)),
        ((3, 3), (0, 0), (2, 2)),
        ((3, 3), (1, 1), (2, 2)),
    ];

    let mut result_4 = nonsymetric_permutations_3(input_4);
    result_4.sort();
    let mut expected_4 = expected_4;
    expected_4.sort();
    assert_eq!(result_4, expected_4);

    let input_3 = &[(10, 10), (20, 20), (30, 30)];
    let expected_3 = vec![
        ((10, 10), (20, 20), (30, 30)),
        ((20, 20), (10, 10), (30, 30)),
        ((30, 30), (10, 10), (20, 20)),
    ];

    let mut result_3 = nonsymetric_permutations_3(input_3);
    result_3.sort();
    let mut expected_3 = expected_3;
    expected_3.sort();
    assert_eq!(result_3, expected_3);
}

#[test]
fn triples_come_in_index_order() {
    let input = &[(0, 0), (1, 1), (2, 2), (3, 3)];
    let result = nonsymetric_permutations_3(input);
    assert_eq!(result.len(), 12);
    assert_eq!(result[0], ((0, 0), (1, 1), (2, 2)));
    assert_eq!(result[3], ((1, 1), (0, 0), (2, 2)));
    assert_eq!(result[11], ((3, 3), (1, 1), (2, 2)));
}

#[test]
fn triple_count_is_l_choose_pattern() {
    for l in 0..9u64 {
        let input: Vec<(u64, u64)> = (0..l).map(|i| (i, i + 1)).collect();
        let result = nonsymetric_permutations_3(&input);
        let expected = if l < 3 { 0 } else { l * (l - 1) * (l - 2) / 2 };
        assert_eq!(result.len() as u64, expected);
    }
}

#[test]
fn three_squares_gate() {
    assert!(!can_be_written_as_sum_of_three_squares(7));
    assert!(!can_be_written_as_sum_of_three_squares(28));
    assert!(can_be_written_as_sum_of_three_squares(9));
    assert!(can_be_written_as_sum_of_three_squares(0));
    assert!(can_be_written_as_sum_of_three_squares(14));
    assert!(!can_be_written_as_sum_of_three_squares(15));
    assert!(!can_be_written_as_sum_of_three_squares(112));
    assert!(can_be_written_as_sum_of_three_squares(56));
}

#[test]
fn three_squares_gate_matches_brute_force() {
    for n in 0..2000u64 {
        let mut found = false;
        let mut a = 0u64;
        while a * a <= n && !found {
            let mut b = a;
            while a * a + b * b <= n && !found {
                let rest = n - a * a - b * b;
                let c = (rest as f64).sqrt() as u64;
                for cc in c.saturating_sub(1)..=c + 1 {
                    if cc * cc == rest {
                        found = true;
                    }
                }
                b += 1;
            }
            a += 1;
        }
        assert_eq!(can_be_written_as_sum_of_three_squares(n), found, "n = {}", n);
    }
}

#[test]
fn primes_are_recognised() {
    let primes = [2u64, 3, 5, 7, 11, 13, 17, 19, 23, 29, 31, 37, 41, 43, 47, 97, 7919];
    for p in primes {
        assert!(is_prime(p), "{}", p);
    }
    let composites = [0u64, 1, 4, 6, 8, 9, 15, 25, 35, 49, 91, 121, 7917, 1_000_000];
    for c in composites {
        assert!(!is_prime(c), "{}", c);
    }
    assert!(is_prime(4_294_967_291));
    assert!(!is_prime(4_294_967_291u64 * 3));
}

#[test]
fn bit_lengths() {
    assert_eq!(bit_length(0), 0);
    assert_eq!(bit_length(1), 1);
    assert_eq!(bit_length(2), 2);
    assert_eq!(bit_length(7), 3);
    assert_eq!(bit_length(8), 4);
    assert_eq!(bit_length(u64::MAX), 64);
    assert_eq!(bit_length(1 << 63), 64);
}

#[test]
fn three_squares_gate_on_powers_of_four() {
    assert!(!can_be_written_as_sum_of_three_squares(7 << 60));
    assert!(can_be_written_as_sum_of_three_squares(7 << 59));
    assert!(can_be_written_as_sum_of_three_squares(3 << 62));
    assert!(!can_be_written_as_sum_of_three_squares(u64::MAX));
    assert!(can_be_written_as_sum_of_three_squares(1 << 63));
}

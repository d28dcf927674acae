use quasi_magic::generate_squares::{generate_squares_sum_fast, precompute_perfect_squares};
use quasi_magic::magic_squares::{find_perfect_squares, Solution, SolutionType};

fn grid(s: &Solution) -> [u64; 9] {
    [s.a, s.b, s.c, s.d, s.e, s.f, s.g, s.h, s.i]
}

fn check_solution(s: &Solution, n: u64) {
    let g = grid(s);
    for p in 0..9 {
        for q in (p + 1)..9 {
            assert_ne!(g[p], g[q]);
        }
    }
    let sq = |x: u64| x * x;
    assert_eq!(sq(s.a) + sq(s.b) + sq(s.c), n);
    assert_eq!(sq(s.g) + sq(s.h) + sq(s.i), n);
    assert_eq!(sq(s.a) + sq(s.e) + sq(s.i), n);
    let axes = [
        sq(s.a) + sq(s.d) + sq(s.g),
        sq(s.i) + sq(s.f) + sq(s.c),
        sq(s.c) + sq(s.e) + sq(s.g),
    ];
    let missed: Vec<u64> = axes.iter().copied().filter(|&v| v != n).collect();
    assert!(missed.len() <= 1);
    assert_eq!(s.incorrect_axis_values, missed);
    assert_eq!(s.solution_type == SolutionType::Perfect, missed.is_empty());
}

#[test]
fn partial_square_for_21609() {
    let n = 21_609u64;
    let sol = find_perfect_squares(None, None, n).expect("a partial square");
    assert_eq!(sol.N, n);
    assert_eq!(grid(&sol), [74, 127, 2, 97, 58, 94, 82, 46, 113]);
    assert_eq!(sol.solution_type, SolutionType::Partial);
    assert_eq!(sol.incorrect_axis_values, vec![10_092]);
    check_solution(&sol, n);
}

#[test]
fn no_square_below_two_thousand() {
    for n in 0..2_000u64 {
        assert!(find_perfect_squares(None, None, n).is_none(), "n = {}", n);
    }
}

#[test]
fn excluded_targets_give_nothing() {
    assert!(find_perfect_squares(None, None, 7).is_none());
    assert!(find_perfect_squares(None, None, 28).is_none());
    assert!(find_perfect_squares(None, None, 21_609 * 4 * 0 + 7 * 4 * 4 * 4).is_none());
}

#[test]
fn strategies_agree_and_repeat() {
    let max = 22_000u64;
    let index = generate_squares_sum_fast(max);
    let table = precompute_perfect_squares(max);
    for n in [21_609u64, 21_610, 5_000, 11_025] {
        let on_demand = find_perfect_squares(None, None, n);
        let with_index = find_perfect_squares(None, Some(&index), n);
        let with_both = find_perfect_squares(Some(&table), Some(&index), n);
        let again = find_perfect_squares(Some(&table), Some(&index), n);
        let as_grid = |r: &Option<Solution>| r.as_ref().map(|s| (s.N, grid(s), s.solution_type, s.incorrect_axis_values.clone()));
        assert_eq!(as_grid(&on_demand), as_grid(&with_index));
        assert_eq!(as_grid(&on_demand), as_grid(&with_both));
        assert_eq!(as_grid(&with_both), as_grid(&again));
        if let Some(s) = &on_demand {
            check_solution(s, n);
        }
    }
}

#[test]
fn small_index_hides_large_targets() {
    let index = generate_squares_sum_fast(100);
    assert!(find_perfect_squares(None, Some(&index), 21_609).is_none());
}

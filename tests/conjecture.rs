use quasi_magic::conjecture::{kp_target, verify_if_N_matches_conjecture};

#[test]
fn conjecture_split_of_known_targets() {
    // (1·3·7²)² = 21609, (2·3·7²)² = 86436, (1·3·13²)² = 257049.
    assert_eq!(verify_if_N_matches_conjecture(21_609), Some((7, 1)));
    assert_eq!(verify_if_N_matches_conjecture(86_436), Some((7, 2)));
    assert_eq!(verify_if_N_matches_conjecture(257_049), Some((13, 1)));
}

#[test]
fn conjecture_split_rejects_other_targets() {
    assert_eq!(verify_if_N_matches_conjecture(21_610), None);
    assert_eq!(verify_if_N_matches_conjecture(18), None);
    assert_eq!(verify_if_N_matches_conjecture(9 * 25), None);
    assert_eq!(verify_if_N_matches_conjecture(0), None);
}

#[test]
fn kp_targets() {
    assert_eq!(kp_target(1, 7), Some(21_609));
    assert_eq!(kp_target(2, 7), Some(86_436));
    assert_eq!(kp_target(0, u64::MAX), Some(0));
    assert_eq!(kp_target(1, 1 << 20), None);
    assert_eq!(kp_target(u64::MAX, 1), None);
}

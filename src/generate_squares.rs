use crate::factors::{lemma_forbidden_factor_is_prime_criterion, odd_bad_prime};
use std::collections::HashMap;
use vstd::prelude::*;

verus! {

/// `k` is the square of a natural number.
pub open spec fn is_square(k: nat) -> bool {
    exists|r: nat| #[trigger] (r * r) == k
}

/// The square root of a perfect square.
pub open spec fn sq_root(k: nat) -> nat {
    choose|r: nat| #[trigger] (r * r) == k
}

/// The truncated square root: the `r` with `r² ≤ k < (r+1)²`.
pub open spec fn floor_sqrt(k: nat) -> nat {
    choose|r: nat| is_floor_root(k, r)
}

/// `r` is the truncated square root of `k`.
pub open spec fn is_floor_root(k: nat, r: nat) -> bool {
    r * r <= k && k < (r + 1) * (r + 1)
}

/// What `is_perfect_square` returns for `n`.
pub open spec fn perfect_square_answer(n: nat) -> (bool, u64) {
    if is_square(n) {
        (true, sq_root(n) as u64)
    } else {
        (false, 0u64)
    }
}

proof fn lemma_root_below(r: nat, s: nat)
    requires
        r * r <= s * s,
    ensures
        r <= s,
{
    if r > s {
        assert(r * r > s * s) by (nonlinear_arith)
            requires
                r > s,
        ;
    }
}

proof fn lemma_root_strict(r: nat, t: nat)
    requires
        r * r < t * t,
    ensures
        r < t,
{
    if r >= t {
        assert(r * r >= t * t) by (nonlinear_arith)
            requires
                r >= t,
        ;
    }
}

proof fn lemma_same_root(r: nat, s: nat, k: nat)
    requires
        r * r == k,
        s * s <= k < (s + 1) * (s + 1),
    ensures
        r == s,
{
    lemma_root_strict(r, s + 1);
    if r < s {
        assert(r * r < s * s) by (nonlinear_arith)
            requires
                r < s,
        ;
    }
}

/// When `s` is the truncated root of `k`, it is `floor_sqrt(k)`, and `k` is a
/// square exactly when `s² = k`, with root `s`.
proof fn lemma_floor_sqrt(k: nat, s: nat)
    requires
        s * s <= k < (s + 1) * (s + 1),
    ensures
        floor_sqrt(k) == s,
        is_square(k) <==> s * s == k,
        is_square(k) ==> sq_root(k) == s,
{
    assert(is_floor_root(k, s));
    let f = floor_sqrt(k);
    assert(f * f <= k && k < (f + 1) * (f + 1));
    if f < s {
        assert((f + 1) * (f + 1) <= s * s) by (nonlinear_arith)
            requires
                f < s,
        ;
    }
    if s < f {
        assert((s + 1) * (s + 1) <= f * f) by (nonlinear_arith)
            requires
                s < f,
        ;
    }
    if is_square(k) {
        let r = choose|r: nat| #[trigger] (r * r) == k;
        lemma_same_root(r, s, k);
        let q = sq_root(k);
        lemma_same_root(q, s, k);
    }
    if s * s == k {
        assert(is_square(k));
    }
}

/// Relies on num_integer::sqrt: the truncated square root, `r² ≤ x < (r+1)²`.
#[verifier::external_body]
fn isqrt(x: u64) -> (r: u64)
    ensures
        r * r <= x,
        x < (r + 1) * (r + 1),
{
    num_integer::sqrt(x)
}

/// The truncated square root of `x`, with what it says about `x`.
pub(crate) fn floor_root(x: u64) -> (r: u64)
    ensures
        r == floor_sqrt(x as nat),
        r * r <= x,
        x < (r + 1) * (r + 1),
        r < 0x1_0000_0000,
        is_square(x as nat) <==> r * r == x,
        is_square(x as nat) ==> sq_root(x as nat) == r,
{
    let r = isqrt(x);
    proof {
        lemma_floor_sqrt(x as nat, r as nat);
        if r >= 0x1_0000_0000 {
            assert(r * r >= 0x1_0000_0000 * 0x1_0000_0000) by (nonlinear_arith)
                requires
                    r >= 0x1_0000_0000,
            ;
        }
    }
    r
}

/// Returns `(true, r)` with `r = √n` if `n` is a perfect square, else `(false, 0)`.
pub fn is_perfect_square(n: u64) -> (r: (bool, u64))
    ensures
        r == perfect_square_answer(n as nat),
        r.0 ==> r.1 * r.1 == n,
{
    if n == 0 {
        proof {
            assert(0nat * 0nat <= 0 < (0nat + 1) * (0nat + 1)) by (nonlinear_arith);
            lemma_floor_sqrt(0, 0);
        }
        return (true, 0);
    }
    let r = floor_root(n);
    if r * r == n {
        (true, r)
    } else {
        (false, 0)
    }
}

/// `m` with every factor `p` divided out.
pub open spec fn strip_factor(m: nat, p: nat) -> nat
    decreases m
    via strip_factor_decreases
{
    if p >= 2 && m > 0 && m % p == 0 {
        strip_factor(m / p, p)
    } else {
        m
    }
}

/// How many times `p` divides `m` (the exponent of `p` in `m`).
pub open spec fn factor_count(m: nat, p: nat) -> nat
    decreases m
    via factor_count_decreases
{
    if p >= 2 && m > 0 && m % p == 0 {
        1 + factor_count(m / p, p)
    } else {
        0
    }
}

/// Trial division of `m` from the odd candidate `p` upwards: some factor
/// `≡ 3 (mod 4)` is met with an odd exponent, or the cofactor left once
/// `p² > m` is itself `≡ 3 (mod 4)`.
pub open spec fn forbidden_from(m: nat, p: nat) -> bool
    decreases m, m + 3 - p
    via forbidden_from_decreases
{
    if m <= 1 || p < 2 {
        false
    } else if p * p > m {
        m % 4 == 3
    } else if m % p == 0 {
        (p % 4 == 3 && factor_count(m, p) % 2 == 1) || forbidden_from(
            strip_factor(m, p),
            p + 2,
        )
    } else {
        forbidden_from(m, p + 2)
    }
}

/// Trial division of `n`, once its factors 2 are divided out, meets a factor
/// `≡ 3 (mod 4)` with an odd exponent. This holds exactly when some prime
/// `≡ 3 (mod 4)` divides `n` an odd number of times (see
/// `lemma_forbidden_factor_is_prime_criterion`).
pub open spec fn has_forbidden_factor(n: nat) -> bool {
    n != 0 && forbidden_from(strip_factor(n, 2), 3)
}

/// Dividing out one factor `p` leaves a smaller positive number.
pub(crate) proof fn lemma_div_step(m: nat, p: nat)
    requires
        p >= 2,
        m > 0,
        m % p == 0,
    ensures
        0 < m / p < m,
        m >= p,
{
    vstd::arithmetic::div_mod::lemma_fundamental_div_mod(m as int, p as int);
    let q = m / p;
    assert(m == p * q);
    assert(q > 0) by (nonlinear_arith)
        requires
            m == p * q,
            m > 0,
    ;
    assert(q < m && m >= p) by (nonlinear_arith)
        requires
            m == p * q,
            p >= 2,
            q > 0,
    ;
}

#[via_fn]
proof fn strip_factor_decreases(m: nat, p: nat) {
    if p >= 2 && m > 0 && m % p == 0 {
        lemma_div_step(m, p);
    }
}

#[via_fn]
proof fn factor_count_decreases(m: nat, p: nat) {
    if p >= 2 && m > 0 && m % p == 0 {
        lemma_div_step(m, p);
    }
}

#[via_fn]
proof fn forbidden_from_decreases(m: nat, p: nat) {
    if !(m <= 1 || p < 2) && p * p <= m {
        assert(p <= m) by (nonlinear_arith)
            requires
                p >= 2,
                p * p <= m,
        ;
        if m % p == 0 {
            lemma_strip_smaller(m, p);
        }
    }
}

pub(crate) proof fn lemma_strip_smaller(m: nat, p: nat)
    requires
        p >= 2,
        m > 0,
        m % p == 0,
    ensures
        strip_factor(m, p) < m,
        strip_factor(m, p) > 0,
    decreases m,
{
    lemma_div_step(m, p);
    assert(strip_factor(m, p) == strip_factor(m / p, p));
    if (m / p) % p == 0 {
        lemma_strip_smaller(m / p, p);
    } else {
        assert(strip_factor(m / p, p) == m / p);
    }
}

/// Returns true if `n` has a prime factor `p ≡ 3 (mod 4)` with an odd exponent.
fn has_forbidden_prime_factor(n: u64) -> (r: bool)
    ensures
        r == has_forbidden_factor(n as nat),
{
    if n == 0 {
        return false;
    }
    let mut m = n;
    while m % 2 == 0
        invariant
            m > 0,
            strip_factor(m as nat, 2) == strip_factor(n as nat, 2),
        decreases m,
    {
        m = m / 2;
    }
    let mut limit = floor_root(m);
    let mut p: u64 = 3;
    while p <= limit && m > 1
        invariant
            m > 0,
            p >= 3,
            limit == floor_sqrt(m as nat),
            limit * limit <= m < (limit + 1) * (limit + 1),
            limit < 0x1_0000_0000,
            has_forbidden_factor(n as nat) == forbidden_from(m as nat, p as nat),
        decreases m, limit + 2 - p,
    {
        assert(p * p <= m) by (nonlinear_arith)
            requires
                p <= limit,
                limit * limit <= m,
        ;
        if m % p == 0 {
            let ghost m0 = m as nat;
            let mut count: u64 = 0;
            while m % p == 0
                invariant
                    m > 0,
                    p >= 3,
                    m <= m0,
                    m0 <= u64::MAX,
                    count + m <= m0 + 1,
                    strip_factor(m as nat, p as nat) == strip_factor(m0, p as nat),
                    factor_count(m0, p as nat) == count + factor_count(m as nat, p as nat),
                decreases m,
            {
                proof {
                    lemma_div_step(m as nat, p as nat);
                }
                count = count + 1;
                m = m / p;
            }
            proof {
                lemma_strip_smaller(m0, p as nat);
            }
            if p % 4 == 3 && count % 2 == 1 {
                return true;
            }
            limit = floor_root(m);
        }
        p = p + 2;
    }
    proof {
        if m > 1 && p > limit {
            assert(p * p > m) by (nonlinear_arith)
                requires
                    p >= limit + 1,
                    m < (limit + 1) * (limit + 1),
            ;
        }
    }
    m > 1 && m % 4 == 3
}

/// `x² + y² = n`.
pub open spec fn is_pair(n: nat, x: nat, y: nat) -> bool {
    x * x + y * y == n
}

/// Returns true unless `n` has a prime factor `≡ 3 (mod 4)` with an odd
/// exponent, which by Fermat's theorem is when `n` is a sum of two squares.
pub fn can_be_sum_of_two_squares(n: u64) -> (r: bool)
    ensures
        r == !has_forbidden_factor(n as nat),
        r <==> !exists|q: nat| #[trigger] odd_bad_prime(n as nat, q),
{
    proof {
        lemma_forbidden_factor_is_prime_criterion(n as nat);
    }
    !has_forbidden_prime_factor(n)
}

/// The pairs `(x, y)` with `x ≤ y` and `x² + y² = n`, for `x` from `x0` upwards,
/// in ascending order of `x`.
pub open spec fn pairs_from(n: nat, x0: nat) -> Seq<(u64, u64)>
    decreases n + 1 - x0,
{
    if x0 > n || 2 * (x0 * x0) > n {
        seq![]
    } else {
        let rest = pairs_from(n, x0 + 1);
        if is_square((n - x0 * x0) as nat) {
            seq![(x0 as u64, sq_root((n - x0 * x0) as nat) as u64)] + rest
        } else {
            rest
        }
    }
}

/// What `find_sum_of_squares_pairs` returns: every pair when the filter
/// lets `n` through, none otherwise.
pub open spec fn square_pairs_of(n: nat) -> Seq<(u64, u64)> {
    if has_forbidden_factor(n) {
        seq![]
    } else {
        pairs_from(n, 0)
    }
}

/// `x² + y² = n` with `x ≤ y`, written on machine integers.
pub open spec fn is_ordered_pair(n: nat, pr: (u64, u64)) -> bool {
    pr.0 <= pr.1 && is_pair(n, pr.0 as nat, pr.1 as nat)
}

/// Every pair of `pairs_from(n, x0)` is an ordered pair of `n` whose first
/// component is at least `x0`, and the first components strictly ascend.
proof fn lemma_pairs_from_sorted(n: nat, x0: nat)
    requires
        n <= u64::MAX,
    ensures
        forall|i: int|
            0 <= i < pairs_from(n, x0).len() ==> #[trigger] is_ordered_pair(n, pairs_from(n, x0)[i])
                && pairs_from(n, x0)[i].0 >= x0,
        forall|i: int, j: int|
            0 <= i < j < pairs_from(n, x0).len() ==> (#[trigger] pairs_from(n, x0)[i]).0
                < (#[trigger] pairs_from(n, x0)[j]).0,
    decreases n + 1 - x0,
{
    if x0 > n || 2 * (x0 * x0) > n {
    } else {
        lemma_pairs_from_sorted(n, x0 + 1);
        let k = (n - x0 * x0) as nat;
        if is_square(k) {
            let r = sq_root(k);
            assert(r * r == k);
            if r < x0 {
                assert(r * r < x0 * x0) by (nonlinear_arith)
                    requires
                        r < x0,
                ;
            }
            assert(r <= n) by (nonlinear_arith)
                requires
                    r * r <= n,
            ;
            let s = pairs_from(n, x0);
            let rest = pairs_from(n, x0 + 1);
            assert(s == seq![(x0 as u64, r as u64)] + rest);
            assert forall|i: int| 0 <= i < s.len() implies #[trigger] is_ordered_pair(n, s[i])
                && s[i].0 >= x0 by {
                if i == 0 {
                    assert(s[0] == (x0 as u64, r as u64));
                    assert(is_pair(n, x0, r));
                } else {
                    assert(s[i] == rest[i - 1]);
                    assert(is_ordered_pair(n, rest[i - 1]));
                }
            }
            assert forall|i: int, j: int| 0 <= i < j < s.len() implies (#[trigger] s[i]).0
                < (#[trigger] s[j]).0 by {
                assert(s[j] == rest[j - 1]);
                assert(is_ordered_pair(n, rest[j - 1]));
                if i > 0 {
                    assert(s[i] == rest[i - 1]);
                }
            }
        } else {
            let s = pairs_from(n, x0);
            let rest = pairs_from(n, x0 + 1);
            assert(s == rest);
            assert forall|i: int| 0 <= i < s.len() implies #[trigger] is_ordered_pair(n, s[i])
                && s[i].0 >= x0 by {
                assert(is_ordered_pair(n, rest[i]));
            }
        }
    }
}

/// Every ordered pair of `n` whose first component is at least `x0` is in
/// `pairs_from(n, x0)`.
proof fn lemma_pairs_from_complete(n: nat, x0: nat, x: nat, y: nat)
    requires
        n <= u64::MAX,
        x0 <= x <= y,
        is_pair(n, x, y),
    ensures
        pairs_from(n, x0).contains((x as u64, y as u64)),
    decreases x - x0,
{
    assert(2 * (x0 * x0) <= n && x0 <= n && y <= n) by (nonlinear_arith)
        requires
            x0 <= x <= y,
            x * x + y * y == n,
    ;
    let rest = pairs_from(n, x0 + 1);
    if x0 == x {
        let k = (n - x * x) as nat;
        assert(y * y == k);
        assert(is_square(k));
        let r = sq_root(k);
        assert(r * r == k);
        lemma_same_root_exact(r, y);
        assert(pairs_from(n, x0)[0] == (x as u64, y as u64));
    } else {
        lemma_pairs_from_complete(n, x0 + 1, x, y);
        let i = choose|i: int| 0 <= i < rest.len() && rest[i] == (x as u64, y as u64);
        if is_square((n - x0 * x0) as nat) {
            assert(pairs_from(n, x0)[i + 1] == rest[i]);
        }
    }
}

proof fn lemma_same_root_exact(r: nat, y: nat)
    requires
        r * r == y * y,
    ensures
        r == y,
{
    lemma_root_below(r, y);
    lemma_root_below(y, r);
}

/// The pairs of `n` are exactly its ordered pairs, in strictly ascending order
/// of the first component.
pub proof fn lemma_square_pairs_exact(n: nat)
    requires
        n <= u64::MAX,
    ensures
        forall|i: int|
            0 <= i < square_pairs_of(n).len() ==> #[trigger] is_ordered_pair(
                n,
                square_pairs_of(n)[i],
            ),
        forall|i: int, j: int|
            0 <= i < j < square_pairs_of(n).len() ==> (#[trigger] square_pairs_of(n)[i]).0 < (
            #[trigger] square_pairs_of(n)[j]).0,
        !has_forbidden_factor(n) ==> forall|x: nat, y: nat|
            x <= y && #[trigger] is_pair(n, x, y) ==> square_pairs_of(n).contains(
                (x as u64, y as u64),
            ),
{
    lemma_pairs_from_sorted(n, 0);
    assert forall|x: nat, y: nat| x <= y && #[trigger] is_pair(n, x, y) implies pairs_from(
        n,
        0,
    ).contains((x as u64, y as u64)) by {
        lemma_pairs_from_complete(n, 0, x, y);
    }
}

/// All pairs `(x, y)` with `x ≤ y` and `x² + y² = n`, by ascending `x`, found
/// with two pointers; empty when the two-squares filter rejects `n`.
pub fn find_sum_of_squares_pairs(n: u64) -> (r: Vec<(u64, u64)>)
    ensures
        r@ == square_pairs_of(n as nat),
{
    if !can_be_sum_of_two_squares(n) {
        return Vec::new();
    }
    let mut pairs: Vec<(u64, u64)> = Vec::new();
    let mut x: u64 = 0;
    let mut y: u64 = floor_root(n);
    proof {
        assert forall|x2: nat, y2: nat| x2 >= x && #[trigger] is_pair(n as nat, x2, y2) implies y2
            <= y by {
            assert(y2 * y2 <= n) by (nonlinear_arith)
                requires
                    x2 * x2 + y2 * y2 == n,
            ;
            lemma_root_strict(y2, y as nat + 1);
        }
    }
    while x <= y
        invariant
            y < 0x1_0000_0000,
            x <= y + 2,
            y * y <= n,
            n < x * x + (y + 1) * (y + 1),
            pairs@ + pairs_from(n as nat, x as nat) == pairs_from(n as nat, 0),
            forall|x2: nat, y2: nat| x2 >= x && #[trigger] is_pair(n as nat, x2, y2) ==> y2 <= y,
        decreases y + 2 - x,
    {
        assert((x as u128) * (x as u128) <= 0x1_0000_0000 * 0x1_0000_0000) by (nonlinear_arith)
            requires
                x <= y,
                y < 0x1_0000_0000,
        ;
        assert((y as u128) * (y as u128) <= 0x1_0000_0000 * 0x1_0000_0000) by (nonlinear_arith)
            requires
                y < 0x1_0000_0000,
        ;
        let xx: u128 = (x as u128) * (x as u128);
        let yy: u128 = (y as u128) * (y as u128);
        let sum: u128 = xx + yy;
        if sum == n as u128 {
            proof {
                let k = (n - x * x) as nat;
                assert(x * x <= y * y) by (nonlinear_arith)
                    requires
                        x <= y,
                ;
                assert(y * y == k);
                assert(is_square(k));
                lemma_same_root_exact(sq_root(k), y as nat);
                assert(x <= n) by (nonlinear_arith)
                    requires
                        x * x + y * y == n,
                        x <= y,
                ;
                assert(pairs_from(n as nat, x as nat) == seq![(x, y)] + pairs_from(
                    n as nat,
                    x as nat + 1,
                ));
                assert forall|x2: nat, y2: nat| x2 >= x + 1 && #[trigger] is_pair(
                    n as nat,
                    x2,
                    y2,
                ) implies y2 < y by {
                    assert(x2 * x2 > x * x) by (nonlinear_arith)
                        requires
                            x2 > x,
                    ;
                    lemma_root_strict(y2, y as nat);
                }
                assert(n < (x + 1) * (x + 1) + y * y) by (nonlinear_arith)
                    requires
                        x * x + y * y == n,
                ;
            }
            pairs.push((x, y));
            proof {
                assert(pairs@ + pairs_from(n as nat, x as nat + 1) == pairs_from(n as nat, 0));
            }
            x = x + 1;
            if y > 0 {
                proof {
                    assert((y - 1) * (y - 1) <= y * y) by (nonlinear_arith)
                        requires
                            y > 0,
                    ;
                }
                y = y - 1;
            }
        } else if sum < n as u128 {
            proof {
                assert(2 * (x * x) <= n && x <= n) by (nonlinear_arith)
                    requires
                        x <= y,
                        x * x + y * y < n,
                ;
                let k = (n - x * x) as nat;
                if is_square(k) {
                    let r = sq_root(k);
                    assert(r * r == k);
                    assert(is_pair(n as nat, x as nat, r));
                    assert(r * r <= y * y) by (nonlinear_arith)
                        requires
                            r <= y,
                    ;
                }
                assert(pairs_from(n as nat, x as nat) == pairs_from(n as nat, x as nat + 1));
                assert(n < (x + 1) * (x + 1) + (y + 1) * (y + 1)) by (nonlinear_arith)
                    requires
                        n < x * x + (y + 1) * (y + 1),
                ;
            }
            x = x + 1;
        } else {
            proof {
                if y == 0 {
                    assert(x == 0);
                }
                assert forall|x2: nat, y2: nat| x2 >= x && #[trigger] is_pair(
                    n as nat,
                    x2,
                    y2,
                ) implies y2 < y by {
                    if y2 == y {
                        assert(x2 * x2 >= x * x) by (nonlinear_arith)
                            requires
                                x2 >= x,
                        ;
                    }
                }
                assert((y - 1) * (y - 1) <= y * y) by (nonlinear_arith)
                    requires
                        y > 0,
                ;
            }
            y = y - 1;
        }
    }
    proof {
        assert(2 * (x * x) > n) by (nonlinear_arith)
            requires
                x >= y + 1,
                n < x * x + (y + 1) * (y + 1),
        ;
        assert(pairs_from(n as nat, x as nat) == Seq::<(u64, u64)>::empty());
        assert(pairs@ == pairs_from(n as nat, 0));
    }
    pairs
}

/// `n` has at least one pair `(x, y)` with `x² + y² = n` that the filter lets through.
pub open spec fn has_pairs(n: nat) -> bool {
    square_pairs_of(n).len() > 0
}

/// Returns `Some((n, pairs))` if `n` has at least one pair, `None` otherwise.
pub fn process_n(n: u64) -> (r: Option<(u64, Vec<(u64, u64)>)>)
    ensures
        r is Some <==> has_pairs(n as nat),
        r matches Some(e) ==> e.0 == n && e.1@ == square_pairs_of(n as nat),
{
    let pairs = find_sum_of_squares_pairs(n);
    if pairs.len() > 0 {
        Some((n, pairs))
    } else {
        None
    }
}

/// The numbers of `s` that have a pair, in order, each as often as it occurs.
pub open spec fn with_pairs(s: Seq<u64>) -> Seq<u64>
    decreases s.len(),
{
    if s.len() == 0 {
        seq![]
    } else {
        with_pairs(s.drop_last()) + if has_pairs(s.last() as nat) {
            seq![s.last()]
        } else {
            seq![]
        }
    }
}

/// `r` holds, for each number of `with_pairs(s)` in order, that number and its pairs.
pub open spec fn is_batch_result(s: Seq<u64>, r: Seq<(u64, Vec<(u64, u64)>)>) -> bool {
    &&& r.len() == with_pairs(s).len()
    &&& forall|i: int|
        0 <= i < r.len() ==> #[trigger] r[i].0 == with_pairs(s)[i] && r[i].1@ == square_pairs_of(
            r[i].0 as nat,
        )
}

/// The numbers kept from `s` are numbers of `s` with a pair, and every number
/// of `s` with a pair is kept.
proof fn lemma_with_pairs_members(s: Seq<u64>)
    ensures
        forall|i: int|
            0 <= i < with_pairs(s).len() ==> s.contains(#[trigger] with_pairs(s)[i]) && has_pairs(
                with_pairs(s)[i] as nat,
            ),
        forall|u: int|
            0 <= u < s.len() && has_pairs(s[u] as nat) ==> with_pairs(s).contains(#[trigger] s[u]),
    decreases s.len(),
{
    if s.len() > 0 {
        let init = s.drop_last();
        lemma_with_pairs_members(init);
        let w = with_pairs(s);
        let wi = with_pairs(init);
        assert forall|i: int| 0 <= i < w.len() implies s.contains(#[trigger] w[i]) && has_pairs(
            w[i] as nat,
        ) by {
            if i < wi.len() {
                assert(w[i] == wi[i]);
                let u = choose|u: int| 0 <= u < init.len() && init[u] == wi[i];
                assert(s[u] == init[u]);
            } else {
                assert(w[i] == s.last());
                assert(s[s.len() - 1] == s.last());
            }
        }
        assert forall|u: int| 0 <= u < s.len() && has_pairs(s[u] as nat) implies w.contains(
            #[trigger] s[u],
        ) by {
            if u < s.len() - 1 {
                assert(init[u] == s[u]);
                let i = choose|i: int| 0 <= i < wi.len() && wi[i] == init[u];
                assert(w[i] == wi[i]);
            } else {
                assert(w[wi.len() as int] == s.last());
            }
        }
    }
}

/// Returns `(n, pairs)` for each `n` of `batch` that has at least one pair, in
/// the order of `batch`.
pub fn batch_process(batch: &[u64]) -> (r: Vec<(u64, Vec<(u64, u64)>)>)
    ensures
        is_batch_result(batch@, r@),
{
    let mut results: Vec<(u64, Vec<(u64, u64)>)> = Vec::new();
    let mut t: usize = 0;
    while t < batch.len()
        invariant
            t <= batch@.len(),
            is_batch_result(batch@.subrange(0, t as int), results@),
        decreases batch@.len() - t,
    {
        let n = batch[t];
        let ghost before = results@;
        let ghost pre = batch@.subrange(0, t as int);
        let ghost cur = batch@.subrange(0, t + 1);
        assert(cur.drop_last() == pre);
        assert(cur.last() == n);
        match process_n(n) {
            Some(res) => {
                results.push(res);
                assert forall|i: int| 0 <= i < results@.len() implies #[trigger] results@[i].0
                    == with_pairs(cur)[i] && results@[i].1@ == square_pairs_of(
                    results@[i].0 as nat,
                ) by {
                    if i < before.len() {
                        assert(results@[i] == before[i]);
                    }
                }
            },
            None => {
                assert(with_pairs(cur) == with_pairs(pre));
            },
        }
        t = t + 1;
    }
    assert(batch@.subrange(0, batch@.len() as int) == batch@);
    results
}

/// Relies on num_cpus::get: the number of logical CPUs, documented as always at least 1.
#[verifier::external_body]
fn cpu_count() -> (r: usize)
    ensures
        r >= 1,
{
    num_cpus::get()
}

/// The batch size for `n` numbers over `cpus` workers: `⌈n / cpus⌉ / 8`, at least 1.
pub fn batch_size(n: u64, cpus: u64) -> (r: u64)
    requires
        cpus >= 1,
    ensures
        r == if (n + cpus - 1) / (cpus as int) / 8 >= 1 {
            ((n + cpus - 1) / (cpus as int) / 8) as u64
        } else {
            1u64
        },
{
    let per_cpu: u128 = (n as u128 + cpus as u128 - 1) / cpus as u128;
    let b: u128 = per_cpu / 8;
    if b >= 1 {
        b as u64
    } else {
        1
    }
}

/// For each `n` in `1..=max`, the pairs of `n` when there is at least one.
pub struct SumOfSquaresIndex {
    map: HashMap<u64, Vec<(u64, u64)>>,
    max: u64,
}

impl SumOfSquaresIndex {
    #[verifier::type_invariant]
    spec fn keeps_all_pairs(self) -> bool {
        forall|k: u64|
            #![trigger self.map@.contains_key(k)]
            (self.map@.contains_key(k) <==> 1 <= k <= self.max && has_pairs(k as nat)) && (
            self.map@.contains_key(k) ==> self.map@[k]@ == square_pairs_of(k as nat))
    }

    /// The largest number the index covers.
    pub closed spec fn bound(self) -> nat {
        self.max as nat
    }

    /// The index holds an entry for `n`.
    pub closed spec fn holds(self, n: u64) -> bool {
        self.map@.contains_key(n)
    }

    /// The largest number the index covers.
    pub fn max(&self) -> (r: u64)
        ensures
            r == self.bound(),
    {
        self.max
    }

    /// The pairs of `n`, if the index holds `n`: it holds exactly the `n` in
    /// `1..=max` that have a pair.
    pub fn get(&self, n: u64) -> (r: Option<&Vec<(u64, u64)>>)
        ensures
            r is Some <==> self.holds(n),
            r is Some <==> 1 <= n <= self.bound() && has_pairs(n as nat),
            r matches Some(v) ==> v@ == square_pairs_of(n as nat),
    {
        proof {
            use_type_invariant(self);
        }
        self.map.get(&n)
    }
}

/// The numbers `lo, lo+1, …, hi`.
pub open spec fn range_seq(lo: nat, hi: nat) -> Seq<u64> {
    Seq::new((hi + 1 - lo) as nat, |u: int| (lo + u) as u64)
}

/// How many batches of `bs` numbers cover `1..=max`: `⌈max / bs⌉`.
pub open spec fn batch_count_of(max: nat, bs: nat) -> nat {
    if max == 0 {
        0
    } else {
        ((max - 1) as nat / bs + 1) as nat
    }
}

/// The first number of batch `b`.
pub open spec fn batch_lo(bs: nat, b: nat) -> nat {
    1 + b * bs
}

/// The last number of batch `b`: `bs` numbers on, or `max`.
pub open spec fn batch_hi(max: nat, bs: nat, b: nat) -> nat {
    if b * bs + bs <= max {
        b * bs + bs
    } else {
        max
    }
}

/// The numbers of batch `b` when `1..=max` is cut into batches of `bs`.
pub open spec fn batch_range(max: nat, bs: nat, b: nat) -> Seq<u64> {
    range_seq(batch_lo(bs, b), batch_hi(max, bs, b))
}

/// The number of batches of `bs` numbers that cover `1..=max`.
pub fn batch_count(max: u64, bs: u64) -> (r: u64)
    requires
        bs >= 1,
    ensures
        r == batch_count_of(max as nat, bs as nat),
{
    if max == 0 {
        0
    } else {
        (max - 1) / bs + 1
    }
}

proof fn lemma_batch_bounds(max: nat, bs: nat, b: nat)
    requires
        bs >= 1,
        b < batch_count_of(max, bs),
    ensures
        batch_lo(bs, b) <= batch_hi(max, bs, b) <= max,
        b + 1 == batch_count_of(max, bs) ==> batch_hi(max, bs, b) == max,
        b + 1 < batch_count_of(max, bs) ==> batch_hi(max, bs, b) == (b + 1) * bs && (b + 1) * bs
            < max,
        b * bs + bs == (b + 1) * bs,
{
    let q = (max - 1) as nat / bs;
    let rm = (max - 1) as nat % bs;
    vstd::arithmetic::div_mod::lemma_fundamental_div_mod((max - 1) as int, bs as int);
    assert(max - 1 == bs * q + rm);
    assert(b <= q);
    assert(b * bs <= q * bs) by (nonlinear_arith)
        requires
            b <= q,
    ;
    assert(q * bs == bs * q) by (nonlinear_arith);
    assert((b + 1) * bs == b * bs + bs) by (nonlinear_arith);
    if b + 1 < batch_count_of(max, bs) {
        assert((b + 1) * bs <= q * bs) by (nonlinear_arith)
            requires
                b + 1 <= q,
        ;
    }
}

/// The batches of `bs` numbers reach past `max`.
proof fn lemma_batches_cover(max: nat, bs: nat)
    requires
        bs >= 1,
    ensures
        batch_count_of(max, bs) * bs >= max,
{
    if max > 0 {
        let q = (max - 1) as nat / bs;
        vstd::arithmetic::div_mod::lemma_fundamental_div_mod((max - 1) as int, bs as int);
        assert(batch_count_of(max, bs) * bs == bs * q + bs) by (nonlinear_arith)
            requires
                batch_count_of(max, bs) == q + 1,
        ;
    }
}

/// The numbers of batch `b` when `1..=max` is cut into batches of `bs`.
pub fn batch_numbers(max: u64, bs: u64, b: u64) -> (r: Vec<u64>)
    requires
        bs >= 1,
        b < batch_count_of(max as nat, bs as nat),
    ensures
        r@ == batch_range(max as nat, bs as nat, b as nat),
{
    proof {
        lemma_batch_bounds(max as nat, bs as nat, b as nat);
    }
    let lo: u64 = 1 + b * bs;
    let hi: u64 = if bs <= max - b * bs {
        b * bs + bs
    } else {
        max
    };
    let mut batch: Vec<u64> = Vec::new();
    let mut t: u128 = lo as u128;
    while t <= hi as u128
        invariant
            lo <= t <= hi + 1,
            hi <= max,
            batch@.len() == t - lo,
            forall|u: int| 0 <= u < batch@.len() ==> #[trigger] batch@[u] == lo + u,
        decreases hi + 1 - t,
    {
        batch.push(t as u64);
        t = t + 1;
    }
    assert(batch@ =~= batch_range(max as nat, bs as nat, b as nat));
    batch
}

/// Adds to `map` the results of the batch `lo..=hi`, whose numbers it does not hold.
fn absorb_batch(
    map: &mut HashMap<u64, Vec<(u64, u64)>>,
    lo: u64,
    hi: u64,
    entries: Vec<(u64, Vec<(u64, u64)>)>,
)
    requires
        1 <= lo <= hi,
        is_batch_result(range_seq(lo as nat, hi as nat), entries@),
        forall|k: u64|
            #![trigger old(map)@.contains_key(k)]
            old(map)@.contains_key(k) ==> !(lo <= k <= hi) && old(map)@[k]@ == square_pairs_of(
                k as nat,
            ),
    ensures
        forall|k: u64|
            #![trigger final(map)@.contains_key(k)]
            (final(map)@.contains_key(k) <==> old(map)@.contains_key(k) || (lo <= k <= hi
                && has_pairs(k as nat))) && (final(map)@.contains_key(k) ==> final(map)@[k]@
                == square_pairs_of(k as nat)),
{
    let ghost range = range_seq(lo as nat, hi as nat);
    let ghost start = map@;
    proof {
        lemma_with_pairs_members(range);
        assert forall|k: u64| lo <= k <= hi implies range.contains(k) by {
            assert(range[k - lo] == k);
        }
    }
    let mut entries = entries;
    let ghost orig = entries@;
    proof {
        assert forall|i: int| 0 <= i < orig.len() implies lo <= (#[trigger] orig[i]).0 <= hi
            && has_pairs(orig[i].0 as nat) && orig[i].1@ == square_pairs_of(orig[i].0 as nat) by {
            assert(orig[i].0 == with_pairs(range)[i]);
            assert(range.contains(with_pairs(range)[i]));
        }
        assert forall|k: u64| lo <= k <= hi && has_pairs(k as nat) implies exists|i: int|
            0 <= i < orig.len() && #[trigger] orig[i].0 == k by {
            let u = k - lo;
            assert(range[u] == k);
            assert(with_pairs(range).contains(range[u]));
            let i = choose|i: int| 0 <= i < with_pairs(range).len() && with_pairs(range)[i] == k;
            assert(orig[i].0 == k);
        }
    }
    while entries.len() > 0
        invariant
            1 <= lo <= hi,
            forall|i: int|
                0 <= i < entries@.len() ==> lo <= (#[trigger] entries@[i]).0 <= hi && has_pairs(
                    entries@[i].0 as nat,
                ) && entries@[i].1@ == square_pairs_of(entries@[i].0 as nat),
            forall|k: u64|
                #![trigger start.contains_key(k)]
                start.contains_key(k) ==> !(lo <= k <= hi) && start[k]@ == square_pairs_of(
                    k as nat,
                ),
            forall|k: u64|
                #![trigger map@.contains_key(k)]
                (map@.contains_key(k) ==> start.contains_key(k) || (lo <= k <= hi && has_pairs(
                    k as nat,
                ))) && (start.contains_key(k) ==> map@.contains_key(k)) && (
                map@.contains_key(k) ==> map@[k]@ == square_pairs_of(k as nat)) && (lo <= k <= hi
                    && has_pairs(k as nat) ==> map@.contains_key(k) || exists|i: int|
                    0 <= i < entries@.len() && #[trigger] entries@[i].0 == k),
        decreases entries@.len(),
    {
        let ghost before = entries@;
        let (k, v) = entries.pop().unwrap();
        proof {
            assert(before[before.len() - 1] == (k, v));
        }
        map.insert(k, v);
        proof {
            assert forall|k2: u64|
                lo <= k2 <= hi && has_pairs(k2 as nat) && !map@.contains_key(k2) implies exists|
                i: int,
            | 0 <= i < entries@.len() && #[trigger] entries@[i].0 == k2 by {
                let i = choose|i: int| 0 <= i < before.len() && #[trigger] before[i].0 == k2;
                assert(i != before.len() - 1);
                assert(entries@[i] == before[i]);
            }
        }
    }
}

impl SumOfSquaresIndex {
    /// Joins the results of the batches of `bs` numbers that cover `1..=max`,
    /// each as `batch_process` gives it for `batch_numbers(max, bs, b)`; the
    /// batches can be worked out independently, in any order.
    pub fn from_batch_results(
        max: u64,
        bs: u64,
        results: Vec<Vec<(u64, Vec<(u64, u64)>)>>,
    ) -> (r: SumOfSquaresIndex)
        requires
            bs >= 1,
            results@.len() == batch_count_of(max as nat, bs as nat),
            forall|b: int|
                0 <= b < results@.len() ==> is_batch_result(
                    batch_range(max as nat, bs as nat, b as nat),
                    (#[trigger] results@[b])@,
                ),
        ensures
            r.bound() == max,
            forall|n: u64| #[trigger] r.holds(n) ==> square_pairs_of(n as nat).len() > 0,
            forall|n: u64|
                1 <= n <= max && !#[trigger] r.holds(n) ==> square_pairs_of(n as nat).len() == 0,
    {
        let mut results = results;
        let mut map: HashMap<u64, Vec<(u64, u64)>> = HashMap::new();
        let ghost nb = results@.len();
        proof {
            lemma_batches_cover(max as nat, bs as nat);
        }
        while results.len() > 0
            invariant
                bs >= 1,
                nb == batch_count_of(max as nat, bs as nat),
                results@.len() <= nb,
                forall|b: int|
                    0 <= b < results@.len() ==> is_batch_result(
                        batch_range(max as nat, bs as nat, b as nat),
                        (#[trigger] results@[b])@,
                    ),
                forall|k: u64|
                    #![trigger map@.contains_key(k)]
                    (map@.contains_key(k) <==> results@.len() * bs < k <= max && has_pairs(
                        k as nat,
                    )) && (map@.contains_key(k) ==> map@[k]@ == square_pairs_of(k as nat)),
            decreases results@.len(),
        {
            let ghost before = results@;
            let b = results.len() - 1;
            let entries = results.pop().unwrap();
            proof {
                assert(entries == before[b as int]);
                lemma_batch_bounds(max as nat, bs as nat, b as nat);
                assert forall|b2: int| 0 <= b2 < results@.len() implies is_batch_result(
                    batch_range(max as nat, bs as nat, b2 as nat),
                    (#[trigger] results@[b2])@,
                ) by {
                    assert(results@[b2] == before[b2]);
                }
            }
            let lo: u64 = 1 + (b as u64) * bs;
            let hi: u64 = if bs <= max - (b as u64) * bs {
                (b as u64) * bs + bs
            } else {
                max
            };
            absorb_batch(&mut map, lo, hi, entries);
        }
        proof {
            assert forall|k: u64| 1 <= k <= max && has_pairs(k as nat) implies map@.contains_key(
                k,
            ) by {
                assert(results@.len() * bs == 0) by (nonlinear_arith)
                    requires
                        results@.len() == 0,
                ;
            }
        }
        SumOfSquaresIndex { map, max }
    }
}

/// For each `n` in `1..=max`, the pairs `(x, y)` with `x² + y² = n`; numbers
/// without a pair are left out. The range is cut into batches sized for the
/// machine's CPUs, which are worked out one after another here.
pub fn generate_squares_sum_fast(max: u64) -> (r: SumOfSquaresIndex)
    ensures
        r.bound() == max,
        forall|n: u64| #[trigger] r.holds(n) ==> square_pairs_of(n as nat).len() > 0,
        forall|n: u64|
            1 <= n <= max && !#[trigger] r.holds(n) ==> square_pairs_of(n as nat).len() == 0,
{
    let cpus = cpu_count();
    let bs = batch_size(max, cpus as u64);
    let nb = batch_count(max, bs);
    let mut results: Vec<Vec<(u64, Vec<(u64, u64)>)>> = Vec::new();
    let mut b: u64 = 0;
    while b < nb
        invariant
            bs >= 1,
            nb == batch_count_of(max as nat, bs as nat),
            b <= nb,
            results@.len() == b,
            forall|b2: int|
                0 <= b2 < results@.len() ==> is_batch_result(
                    batch_range(max as nat, bs as nat, b2 as nat),
                    (#[trigger] results@[b2])@,
                ),
        decreases nb - b,
    {
        let batch = batch_numbers(max, bs, b);
        let entries = batch_process(batch.as_slice());
        let ghost before = results@;
        results.push(entries);
        proof {
            assert forall|b2: int| 0 <= b2 < results@.len() implies is_batch_result(
                batch_range(max as nat, bs as nat, b2 as nat),
                (#[trigger] results@[b2])@,
            ) by {
                if b2 < before.len() {
                    assert(results@[b2] == before[b2]);
                }
            }
        }
        b = b + 1;
    }
    SumOfSquaresIndex::from_batch_results(max, bs, results)
}

/// For each `n` in `0..=max` that is a perfect square, `(true, √n)`.
pub struct PrecomputedPerfectSquares {
    map: HashMap<u64, (bool, u64)>,
    max: u64,
}

/// What the table answers for `n` when `n ≤ max`: the square's root, or nothing.
pub open spec fn table_answer(n: nat) -> Option<(bool, u64)> {
    if is_square(n) {
        Some((true, sq_root(n) as u64))
    } else {
        None
    }
}

impl PrecomputedPerfectSquares {
    #[verifier::type_invariant]
    spec fn holds_squares(self) -> bool {
        forall|k: u64|
            #![trigger self.map@.contains_key(k)]
            (self.map@.contains_key(k) <==> k <= self.max && is_square(k as nat)) && (
            self.map@.contains_key(k) ==> self.map@[k] == (true, sq_root(k as nat) as u64))
    }

    /// The largest number the table covers.
    pub closed spec fn bound(self) -> nat {
        self.max as nat
    }

    /// The largest number the table covers.
    pub fn max(&self) -> (r: u64)
        ensures
            r == self.bound(),
    {
        self.max
    }

    /// The table's answer for `n ≤ max`; above `max`, the answer is computed.
    pub fn get(&self, n: u64) -> (r: Option<(bool, u64)>)
        ensures
            r == if n > self.bound() {
                Some(perfect_square_answer(n as nat))
            } else {
                table_answer(n as nat)
            },
    {
        proof {
            use_type_invariant(self);
        }
        if n > self.max {
            return Some(is_perfect_square(n));
        }
        match self.map.get(&n) {
            Some(v) => Some(*v),
            None => None,
        }
    }
}

/// Builds the table of the perfect squares in `0..=max_val`. The range is cut
/// into batches sized for the machine's CPUs, worked out one after another here.
pub fn precompute_perfect_squares(max_val: u64) -> (r: PrecomputedPerfectSquares)
    ensures
        r.bound() == max_val,
{
    let cpus = cpu_count();
    let bs = batch_size(max_val, cpus as u64);
    let nb = batch_count(max_val, bs);
    let mut results: Vec<Vec<(u64, (bool, u64))>> = Vec::new();
    let mut b: u64 = 0;
    while b < nb
        invariant
            bs >= 1,
            nb == batch_count_of(max_val as nat, bs as nat),
            b <= nb,
            results@.len() == b,
            forall|b2: int|
                0 <= b2 < results@.len() ==> is_square_batch_result(
                    batch_range(max_val as nat, bs as nat, b2 as nat),
                    (#[trigger] results@[b2])@,
                ),
        decreases nb - b,
    {
        let batch = batch_numbers(max_val, bs, b);
        let entries = square_batch(batch.as_slice());
        let ghost before = results@;
        results.push(entries);
        proof {
            assert forall|b2: int| 0 <= b2 < results@.len() implies is_square_batch_result(
                batch_range(max_val as nat, bs as nat, b2 as nat),
                (#[trigger] results@[b2])@,
            ) by {
                if b2 < before.len() {
                    assert(results@[b2] == before[b2]);
                }
            }
        }
        b = b + 1;
    }
    PrecomputedPerfectSquares::from_batch_results(max_val, bs, results)
}

/// The perfect squares of `s`, in order, each as often as it occurs.
pub open spec fn squares_in(s: Seq<u64>) -> Seq<u64>
    decreases s.len(),
{
    if s.len() == 0 {
        seq![]
    } else {
        squares_in(s.drop_last()) + if is_square(s.last() as nat) {
            seq![s.last()]
        } else {
            seq![]
        }
    }
}

/// `r` holds, for each number of `squares_in(s)` in order, that number and `(true, its root)`.
pub open spec fn is_square_batch_result(s: Seq<u64>, r: Seq<(u64, (bool, u64))>) -> bool {
    &&& r.len() == squares_in(s).len()
    &&& forall|i: int|
        0 <= i < r.len() ==> #[trigger] r[i].0 == squares_in(s)[i] && r[i].1 == (
            true,
            sq_root(r[i].0 as nat) as u64,
        )
}

proof fn lemma_squares_in_members(s: Seq<u64>)
    ensures
        forall|i: int|
            0 <= i < squares_in(s).len() ==> s.contains(#[trigger] squares_in(s)[i]) && is_square(
                squares_in(s)[i] as nat,
            ),
        forall|u: int|
            0 <= u < s.len() && is_square(s[u] as nat) ==> squares_in(s).contains(#[trigger] s[u]),
    decreases s.len(),
{
    if s.len() > 0 {
        let init = s.drop_last();
        lemma_squares_in_members(init);
        let w = squares_in(s);
        let wi = squares_in(init);
        assert forall|i: int| 0 <= i < w.len() implies s.contains(#[trigger] w[i]) && is_square(
            w[i] as nat,
        ) by {
            if i < wi.len() {
                assert(w[i] == wi[i]);
                let u = choose|u: int| 0 <= u < init.len() && init[u] == wi[i];
                assert(s[u] == init[u]);
            } else {
                assert(w[i] == s.last());
                assert(s[s.len() - 1] == s.last());
            }
        }
        assert forall|u: int| 0 <= u < s.len() && is_square(s[u] as nat) implies w.contains(
            #[trigger] s[u],
        ) by {
            if u < s.len() - 1 {
                assert(init[u] == s[u]);
                let i = choose|i: int| 0 <= i < wi.len() && wi[i] == init[u];
                assert(w[i] == wi[i]);
            } else {
                assert(w[wi.len() as int] == s.last());
            }
        }
    }
}

/// Returns `(n, (true, √n))` for each perfect square `n` of `batch`, in the order of `batch`.
pub fn square_batch(batch: &[u64]) -> (r: Vec<(u64, (bool, u64))>)
    ensures
        is_square_batch_result(batch@, r@),
{
    let mut results: Vec<(u64, (bool, u64))> = Vec::new();
    let mut t: usize = 0;
    while t < batch.len()
        invariant
            t <= batch@.len(),
            is_square_batch_result(batch@.subrange(0, t as int), results@),
        decreases batch@.len() - t,
    {
        let n = batch[t];
        let ghost before = results@;
        let ghost pre = batch@.subrange(0, t as int);
        let ghost cur = batch@.subrange(0, t + 1);
        assert(cur.drop_last() == pre);
        assert(cur.last() == n);
        let ans = is_perfect_square(n);
        if ans.0 {
            results.push((n, ans));
            assert forall|i: int| 0 <= i < results@.len() implies #[trigger] results@[i].0
                == squares_in(cur)[i] && results@[i].1 == (
                true,
                sq_root(results@[i].0 as nat) as u64,
            ) by {
                if i < before.len() {
                    assert(results@[i] == before[i]);
                }
            }
        } else {
            assert(squares_in(cur) == squares_in(pre));
        }
        t = t + 1;
    }
    assert(batch@.subrange(0, batch@.len() as int) == batch@);
    results
}

/// Adds to `map` the squares of the batch `lo..=hi`, whose numbers it does not hold.
fn absorb_square_batch(
    map: &mut HashMap<u64, (bool, u64)>,
    lo: u64,
    hi: u64,
    entries: Vec<(u64, (bool, u64))>,
)
    requires
        1 <= lo <= hi,
        is_square_batch_result(range_seq(lo as nat, hi as nat), entries@),
        forall|k: u64|
            #![trigger old(map)@.contains_key(k)]
            old(map)@.contains_key(k) ==> !(lo <= k <= hi) && old(map)@[k] == (
                true,
                sq_root(k as nat) as u64,
            ),
    ensures
        forall|k: u64|
            #![trigger final(map)@.contains_key(k)]
            (final(map)@.contains_key(k) <==> old(map)@.contains_key(k) || (lo <= k <= hi
                && is_square(k as nat))) && (final(map)@.contains_key(k) ==> final(map)@[k] == (
                true,
                sq_root(k as nat) as u64,
            )),
{
    let ghost range = range_seq(lo as nat, hi as nat);
    let ghost start = map@;
    proof {
        lemma_squares_in_members(range);
        assert forall|k: u64| lo <= k <= hi implies range.contains(k) by {
            assert(range[k - lo] == k);
        }
    }
    let mut entries = entries;
    let ghost orig = entries@;
    proof {
        assert forall|i: int| 0 <= i < orig.len() implies lo <= (#[trigger] orig[i]).0 <= hi
            && is_square(orig[i].0 as nat) && orig[i].1 == (true, sq_root(orig[i].0 as nat) as u64) by {
            assert(orig[i].0 == squares_in(range)[i]);
            assert(range.contains(squares_in(range)[i]));
        }
        assert forall|k: u64| lo <= k <= hi && is_square(k as nat) implies exists|i: int|
            0 <= i < orig.len() && #[trigger] orig[i].0 == k by {
            let u = k - lo;
            assert(range[u] == k);
            assert(squares_in(range).contains(range[u]));
            let i = choose|i: int| 0 <= i < squares_in(range).len() && squares_in(range)[i] == k;
            assert(orig[i].0 == k);
        }
    }
    while entries.len() > 0
        invariant
            1 <= lo <= hi,
            forall|i: int|
                0 <= i < entries@.len() ==> lo <= (#[trigger] entries@[i]).0 <= hi && is_square(
                    entries@[i].0 as nat,
                ) && entries@[i].1 == (true, sq_root(entries@[i].0 as nat) as u64),
            forall|k: u64|
                #![trigger start.contains_key(k)]
                start.contains_key(k) ==> !(lo <= k <= hi) && start[k] == (
                    true,
                    sq_root(k as nat) as u64,
                ),
            forall|k: u64|
                #![trigger map@.contains_key(k)]
                (map@.contains_key(k) ==> start.contains_key(k) || (lo <= k <= hi && is_square(
                    k as nat,
                ))) && (start.contains_key(k) ==> map@.contains_key(k)) && (map@.contains_key(k)
                    ==> map@[k] == (true, sq_root(k as nat) as u64)) && (lo <= k <= hi
                    && is_square(k as nat) ==> map@.contains_key(k) || exists|i: int|
                    0 <= i < entries@.len() && #[trigger] entries@[i].0 == k),
        decreases entries@.len(),
    {
        let ghost before = entries@;
        let (k, v) = entries.pop().unwrap();
        proof {
            assert(before[before.len() - 1] == (k, v));
        }
        map.insert(k, v);
        proof {
            assert forall|k2: u64|
                lo <= k2 <= hi && is_square(k2 as nat) && !map@.contains_key(k2) implies exists|
                i: int,
            | 0 <= i < entries@.len() && #[trigger] entries@[i].0 == k2 by {
                let i = choose|i: int| 0 <= i < before.len() && #[trigger] before[i].0 == k2;
                assert(i != before.len() - 1);
                assert(entries@[i] == before[i]);
            }
        }
    }
}

impl PrecomputedPerfectSquares {
    /// Joins the squares found in the batches of `bs` numbers that cover
    /// `1..=max`, each as `square_batch` gives it for `batch_numbers(max, bs, b)`;
    /// the square 0 is added here. The batches can be worked out independently.
    pub fn from_batch_results(max: u64, bs: u64, results: Vec<Vec<(u64, (bool, u64))>>) -> (r:
        PrecomputedPerfectSquares)
        requires
            bs >= 1,
            results@.len() == batch_count_of(max as nat, bs as nat),
            forall|b: int|
                0 <= b < results@.len() ==> is_square_batch_result(
                    batch_range(max as nat, bs as nat, b as nat),
                    (#[trigger] results@[b])@,
                ),
        ensures
            r.bound() == max,
    {
        let mut results = results;
        let mut map: HashMap<u64, (bool, u64)> = HashMap::new();
        proof {
            assert(0nat * 0nat == 0);
            assert(is_square(0));
            let r0 = sq_root(0);
            assert(r0 * r0 == 0);
            assert(r0 == 0) by (nonlinear_arith)
                requires
                    r0 * r0 == 0,
            ;
        }
        map.insert(0, (true, 0));
        let ghost nb = results@.len();
        proof {
            lemma_batches_cover(max as nat, bs as nat);
        }
        while results.len() > 0
            invariant
                bs >= 1,
                nb == batch_count_of(max as nat, bs as nat),
                results@.len() <= nb,
                forall|b: int|
                    0 <= b < results@.len() ==> is_square_batch_result(
                        batch_range(max as nat, bs as nat, b as nat),
                        (#[trigger] results@[b])@,
                    ),
                forall|k: u64|
                    #![trigger map@.contains_key(k)]
                    (map@.contains_key(k) <==> (k == 0 || results@.len() * bs < k <= max)
                        && is_square(k as nat)) && (map@.contains_key(k) ==> map@[k] == (
                        true,
                        sq_root(k as nat) as u64,
                    )),
            decreases results@.len(),
        {
            let ghost before = results@;
            let b = results.len() - 1;
            let entries = results.pop().unwrap();
            proof {
                assert(entries == before[b as int]);
                lemma_batch_bounds(max as nat, bs as nat, b as nat);
                assert forall|b2: int| 0 <= b2 < results@.len() implies is_square_batch_result(
                    batch_range(max as nat, bs as nat, b2 as nat),
                    (#[trigger] results@[b2])@,
                ) by {
                    assert(results@[b2] == before[b2]);
                }
            }
            let lo: u64 = 1 + (b as u64) * bs;
            let hi: u64 = if bs <= max - (b as u64) * bs {
                (b as u64) * bs + bs
            } else {
                max
            };
            absorb_square_batch(&mut map, lo, hi, entries);
        }
        proof {
            assert(results@.len() * bs == 0) by (nonlinear_arith)
                requires
                    results@.len() == 0,
            ;
        }
        PrecomputedPerfectSquares { map, max }
    }
}

} // verus!

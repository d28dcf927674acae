use crate::generate_squares::{is_perfect_square, is_square, sq_root};
use crate::utils::{is_prime, is_prime_spec};
use vstd::prelude::*;

verus! {

/// The first prime `p ≡ 1 (mod 6)` with `p0 ≤ p < n` and `p² | n`, with `n / p²`.
pub open spec fn prime_square_divisor_from(n: nat, p0: nat) -> Option<(u64, u64)>
    decreases n - p0,
{
    if p0 >= n {
        None
    } else if is_prime_spec(p0) && p0 % 6 == 1 && n % (p0 * p0) == 0 {
        Some((p0 as u64, (n / (p0 * p0)) as u64))
    } else {
        prime_square_divisor_from(n, p0 + 1)
    }
}

/// For `N = 9·n²`, the first prime `p ≡ 1 (mod 6)` below `n` with `p² | n`,
/// together with `k = n / p²`; nothing when `N` has not that form.
pub open spec fn conjecture_split(big_n: nat) -> Option<(u64, u64)> {
    if big_n % 9 != 0 || !is_square(big_n / 9) {
        None
    } else {
        prime_square_divisor_from(sq_root(big_n / 9), 0)
    }
}

/// Checks whether `N = (k·3·p²)²`: that is `N = 9·n²` with some prime
/// `p ≡ 1 (mod 6)` below `n` whose square divides `n`. Returns `(p, k)` with
/// `k = n / p²` for the first such `p`.
#[allow(non_snake_case)]
pub fn verify_if_N_matches_conjecture(N: u64) -> (r: Option<(u64, u64)>)
    ensures
        r == conjecture_split(N as nat),
{
    if N % 9 != 0 {
        return None;
    }
    let (is_ps, n) = is_perfect_square(N / 9);
    if !is_ps {
        return None;
    }
    proof {
        let k = (N / 9) as nat;
        let r = sq_root(k);
        assert(r * r == k);
        assert(r <= k) by (nonlinear_arith)
            requires
                r * r == k,
        ;
        assert(n == r);
    }
    assert(n < 0x1_0000_0000) by (nonlinear_arith)
        requires
            n * n == N / 9,
            N <= u64::MAX,
    ;
    let mut p: u64 = 0;
    while p < n
        invariant
            n < 0x1_0000_0000,
            p <= n,
            conjecture_split(N as nat) == prime_square_divisor_from(n as nat, p as nat),
        decreases n - p,
    {
        assert(p * p < 0x1_0000_0000 * 0x1_0000_0000) by (nonlinear_arith)
            requires
                p < 0x1_0000_0000,
        ;
        if is_prime(p) && p % 6 == 1 {
            let pp = p * p;
            assert(pp >= 1) by (nonlinear_arith)
                requires
                    pp == p * p,
                    p >= 1,
            ;
            if n % pp == 0 {
                return Some((p, n / pp));
            }
        }
        p = p + 1;
    }
    None
}

/// `(k·3·p²)²`, when it fits in 64 bits.
pub open spec fn kp_target_value(k: nat, p: nat) -> nat {
    (k * 3 * (p * p)) * (k * 3 * (p * p))
}

proof fn lemma_target_overflow(k: nat, p: nat)
    requires
        k >= 1,
        p >= 1,
        p * p > u64::MAX || (p * p) * 3 > u64::MAX || k * ((p * p) * 3) > u64::MAX,
    ensures
        kp_target_value(k, p) > u64::MAX,
{
    let bb = k * 3 * (p * p);
    assert(bb > u64::MAX) by (nonlinear_arith)
        requires
            p * p > u64::MAX || (p * p) * 3 > u64::MAX || k * ((p * p) * 3) > u64::MAX,
            bb == k * 3 * (p * p),
            k >= 1,
            p >= 1,
    ;
    assert(bb * bb >= bb) by (nonlinear_arith)
        requires
            bb >= 1,
    ;
}

/// The target `(k·3·p²)²`, or `None` when it does not fit in 64 bits.
pub fn kp_target(k: u64, p: u64) -> (r: Option<u64>)
    ensures
        r matches Some(v) ==> v == kp_target_value(k as nat, p as nat),
        r is None <==> kp_target_value(k as nat, p as nat) > u64::MAX,
{
    if k == 0 || p == 0 {
        proof {
            assert(kp_target_value(k as nat, p as nat) == 0) by (nonlinear_arith)
                requires
                    k == 0 || p == 0,
            ;
        }
        return Some(0);
    }
    let pp = p.checked_mul(p);
    let base = match pp {
        Some(v) => match v.checked_mul(3) {
            Some(w) => k.checked_mul(w),
            None => None,
        },
        None => None,
    };
    match base {
        Some(b) => {
            proof {
                assert(b == k * 3 * (p * p)) by (nonlinear_arith)
                    requires
                        b == k * ((p * p) * 3),
                ;
                assert(b * b == kp_target_value(k as nat, p as nat));
            }
            let r = b.checked_mul(b);
            assert(r is None <==> b * b > u64::MAX);
            r
        },
        None => {
            proof {
                lemma_target_overflow(k as nat, p as nat);
            }
            None
        },
    }
}

} // verus!

use crate::generate_squares::{
    factor_count, forbidden_from, has_forbidden_factor, lemma_div_step, lemma_strip_smaller,
    strip_factor,
};
use crate::utils::is_prime_spec;
use vstd::prelude::*;

verus! {

/// `x` is a multiple of `p`.
proof fn lemma_multiple_mod(x: int, p: int, c: int)
    requires
        p > 0,
        x == p * c,
    ensures
        x % p == 0,
{
    vstd::arithmetic::div_mod::lemma_mod_multiples_basic(c, p);
    assert(c * p == p * c) by (nonlinear_arith);
}

/// Euclid's lemma: a prime dividing a product divides one of its factors.
proof fn lemma_euclid(p: nat, a: nat, b: nat)
    requires
        is_prime_spec(p),
        (a * b) % p == 0,
        a % p != 0,
    ensures
        b % p == 0,
    decreases a,
{
    vstd::arithmetic::div_mod::lemma_fundamental_div_mod(a as int, p as int);
    vstd::arithmetic::div_mod::lemma_fundamental_div_mod((a * b) as int, p as int);
    let s = a / p;
    let a2 = a % p;
    let t = (a * b) / p;
    assert(a2 * b == p * (t - s * b)) by (nonlinear_arith)
        requires
            a == p * s + a2,
            a * b == p * t,
    ;
    lemma_multiple_mod((a2 * b) as int, p as int, t - s * b);
    if a2 == 1 {
        assert(a2 * b == b) by (nonlinear_arith)
            requires
                a2 == 1,
        ;
    } else if a2 < a {
        assert(a2 % p == a2) by {
            vstd::arithmetic::div_mod::lemma_small_mod(a2, p);
        }
        lemma_euclid(p, a2, b);
    } else {
        // 2 <= a < p: divide p by a, the remainder is a smaller witness.
        assert(a == a2);
        assert(2 <= a < p);
        vstd::arithmetic::div_mod::lemma_fundamental_div_mod(p as int, a as int);
        let k = p / a;
        let r = p % a;
        assert(p % a != 0);
        assert(r * b == p * (b - k * t)) by (nonlinear_arith)
            requires
                p == a * k + r,
                a * b == p * t,
        ;
        lemma_multiple_mod((r * b) as int, p as int, b - k * t);
        assert(r % p == r) by {
            vstd::arithmetic::div_mod::lemma_small_mod(r, p);
        }
        lemma_euclid(p, r, b);
    }
}

/// A prime does not divide another prime.
proof fn lemma_distinct_primes(p: nat, q: nat)
    requires
        is_prime_spec(p),
        is_prime_spec(q),
        p != q,
    ensures
        p % q != 0,
{
    if p < q {
        vstd::arithmetic::div_mod::lemma_small_mod(p, q);
    } else {
        assert(p % q != 0);
    }
}

/// A divisor of `m / p` divides `m`.
proof fn lemma_div_of_quotient(m: nat, p: nat, d: nat)
    requires
        p > 0,
        d > 0,
        m % p == 0,
        (m / p) % d == 0,
    ensures
        m % d == 0,
{
    vstd::arithmetic::div_mod::lemma_fundamental_div_mod(m as int, p as int);
    vstd::arithmetic::div_mod::lemma_fundamental_div_mod((m / p) as int, d as int);
    let x = m / p;
    let y = x / d;
    assert(m == d * (p * y)) by (nonlinear_arith)
        requires
            m == p * x,
            x == d * y,
    ;
    lemma_multiple_mod(m as int, d as int, (p * y) as int);
}

/// Dividing out the prime `p` leaves the exponent of another prime `q`.
proof fn lemma_count_other_prime(m: nat, p: nat, q: nat)
    requires
        is_prime_spec(p),
        is_prime_spec(q),
        p != q,
        m > 0,
        m % p == 0,
    ensures
        factor_count(m / p, q) == factor_count(m, q),
    decreases m,
{
    lemma_div_step(m, p);
    if m % q == 0 {
        lemma_div_step(m, q);
        vstd::arithmetic::div_mod::lemma_fundamental_div_mod(m as int, p as int);
        vstd::arithmetic::div_mod::lemma_fundamental_div_mod(m as int, q as int);
        let x = m / p;
        let z = m / q;
        lemma_distinct_primes(p, q);
        lemma_distinct_primes(q, p);
        assert((p * x) % q == 0);
        lemma_euclid(q, p, x);
        assert((q * z) % p == 0);
        lemma_euclid(p, q, z);
        vstd::arithmetic::div_mod::lemma_fundamental_div_mod(x as int, q as int);
        vstd::arithmetic::div_mod::lemma_fundamental_div_mod(z as int, p as int);
        let y = x / q;
        let w = z / p;
        assert(y == w) by (nonlinear_arith)
            requires
                m == p * x,
                m == q * z,
                x == q * y,
                z == p * w,
                p > 0,
                q > 0,
        ;
        lemma_div_step(x, q);
        lemma_div_step(z, p);
        lemma_count_other_prime(z, p, q);
    } else {
        if (m / p) % q == 0 {
            lemma_div_of_quotient(m, p, q);
        }
    }
}

/// Dividing out every factor of the prime `p` leaves the exponent of another prime `q`.
proof fn lemma_count_strip(m: nat, p: nat, q: nat)
    requires
        is_prime_spec(p),
        is_prime_spec(q),
        p != q,
        m > 0,
    ensures
        factor_count(strip_factor(m, p), q) == factor_count(m, q),
    decreases m,
{
    if m % p == 0 {
        lemma_div_step(m, p);
        lemma_count_other_prime(m, p, q);
        lemma_count_strip(m / p, p, q);
    }
}

/// What `strip_factor(m, p)` divides, `m` divides; and `p` no longer divides it.
proof fn lemma_strip_facts(m: nat, p: nat, d: nat)
    requires
        p >= 2,
        m > 0,
        d > 0,
    ensures
        strip_factor(m, p) > 0,
        strip_factor(m, p) % p != 0,
        strip_factor(m, p) % d == 0 ==> m % d == 0,
    decreases m,
{
    if m % p == 0 {
        lemma_div_step(m, p);
        lemma_strip_facts(m / p, p, d);
        if strip_factor(m, p) % d == 0 {
            lemma_div_of_quotient(m, p, d);
        }
    }
}

/// `q` is a prime `≡ 3 (mod 4)` with an odd exponent in `m`.
pub open spec fn odd_bad_prime(m: nat, q: nat) -> bool {
    is_prime_spec(q) && q % 4 == 3 && factor_count(m, q) % 2 == 1
}

/// `m` has no divisor in `[2, p)`.
spec fn no_divisor_below(m: nat, p: nat) -> bool {
    forall|d: nat| 2 <= d < p ==> #[trigger] (m % d) != 0
}

/// A positive exponent means a divisor.
proof fn lemma_count_pos_divides(m: nat, q: nat)
    requires
        factor_count(m, q) > 0,
    ensures
        q >= 2,
        m > 0,
        m % q == 0,
{
}

/// Trial division of an odd `m` from an odd `p`, when `m` has no divisor
/// below `p`, finds exactly the primes `≡ 3 (mod 4)` with an odd exponent.
proof fn lemma_forbidden_from_primes(m: nat, p: nat)
    requires
        m > 0,
        m % 2 != 0,
        p >= 3,
        p % 2 == 1,
        no_divisor_below(m, p),
    ensures
        forbidden_from(m, p) <==> exists|q: nat| #[trigger] odd_bad_prime(m, q),
    decreases m, m + 3 - p,
{
    if m <= 1 {
        assert forall|q: nat| !#[trigger] odd_bad_prime(m, q) by {
            if factor_count(m, q) > 0 {
                lemma_count_pos_divides(m, q);
                vstd::arithmetic::div_mod::lemma_small_mod(1, q);
            }
        }
    } else if p * p > m {
        // m is prime: any divisor in [2, m) and its cofactor would both reach p.
        assert forall|d: nat| 2 <= d < m implies #[trigger] (m % d) != 0 by {
            if m % d == 0 {
                assert(d >= p);
                vstd::arithmetic::div_mod::lemma_fundamental_div_mod(m as int, d as int);
                let e = m / d;
                assert(m == d * e);
                assert(2 <= e < p) by (nonlinear_arith)
                    requires
                        m == d * e,
                        d < m,
                        d >= p,
                        p * p > m,
                        d >= 2,
                ;
                assert(m == e * d) by (nonlinear_arith)
                    requires
                        m == d * e,
                ;
                lemma_multiple_mod(m as int, e as int, d as int);
                assert(m % e != 0);
            }
        }
        assert(is_prime_spec(m));
        assert(m % m == 0);
        assert(factor_count(m / m, m) == 0) by {
            assert(m / m == 1);
            vstd::arithmetic::div_mod::lemma_small_mod(1, m);
        }
        assert(factor_count(m, m) == 1);
        if m % 4 == 3 {
            assert(odd_bad_prime(m, m));
        }
        assert forall|q: nat| #[trigger] odd_bad_prime(m, q) implies q == m by {
            lemma_count_pos_divides(m, q);
            if q != m {
                vstd::arithmetic::div_mod::lemma_mod_self_0(m as int);
                if q > m {
                    vstd::arithmetic::div_mod::lemma_small_mod(m, q);
                }
            }
        }
    } else {
        assert(p <= m) by (nonlinear_arith)
            requires
                p >= 2,
                p * p <= m,
        ;
        assert(p % 2 != 0);
        if m % p == 0 {
            // p is prime: a divisor of p below p would divide m.
            assert forall|d: nat| 2 <= d < p implies #[trigger] (p % d) != 0 by {
                if p % d == 0 {
                    vstd::arithmetic::div_mod::lemma_fundamental_div_mod(m as int, p as int);
                    vstd::arithmetic::div_mod::lemma_fundamental_div_mod(p as int, d as int);
                    let x = m / p;
                    let y = p / d;
                    assert(m == d * (y * x)) by (nonlinear_arith)
                        requires
                            m == p * x,
                            p == d * y,
                    ;
                    lemma_multiple_mod(m as int, d as int, (y * x) as int);
                }
            }
            assert(is_prime_spec(p));
            let m2 = strip_factor(m, p);
            lemma_strip_smaller(m, p);
            lemma_strip_facts(m, p, 2);
            assert forall|d: nat| 2 <= d < p + 2 implies #[trigger] (m2 % d) != 0 by {
                lemma_strip_facts(m, p, d);
                if d == p + 1 && m2 % d == 0 {
                    vstd::arithmetic::div_mod::lemma_fundamental_div_mod(m2 as int, d as int);
                    let y = m2 / d;
                    assert(m2 == 2 * (((p + 1) / 2) * y)) by (nonlinear_arith)
                        requires
                            m2 == d * y,
                            d == p + 1,
                            (p + 1) % 2 == 0,
                    ;
                    lemma_multiple_mod(m2 as int, 2, (((p + 1) / 2) * y) as int);
                }
            }
            lemma_forbidden_from_primes(m2, p + 2);
            assert(factor_count(m2, p) == 0);
            assert forall|q: nat| q != p && is_prime_spec(q) implies #[trigger] factor_count(m2, q)
                == factor_count(m, q) by {
                lemma_count_strip(m, p, q);
            }
            assert(forbidden_from(m, p) == ((p % 4 == 3 && factor_count(m, p) % 2 == 1)
                || forbidden_from(m2, p + 2)));
            if p % 4 == 3 && factor_count(m, p) % 2 == 1 {
                assert(odd_bad_prime(m, p));
            }
            if exists|q: nat| #[trigger] odd_bad_prime(m2, q) {
                let q = choose|q: nat| #[trigger] odd_bad_prime(m2, q);
                assert(q != p);
                assert(odd_bad_prime(m, q));
            }
            if exists|q: nat| #[trigger] odd_bad_prime(m, q) {
                let q = choose|q: nat| #[trigger] odd_bad_prime(m, q);
                if q != p {
                    assert(odd_bad_prime(m2, q));
                }
            }
            } else {
            assert forall|d: nat| 2 <= d < p + 2 implies #[trigger] (m % d) != 0 by {
                if d == p + 1 && m % d == 0 {
                    vstd::arithmetic::div_mod::lemma_fundamental_div_mod(m as int, d as int);
                    let y = m / d;
                    assert(m == 2 * (((p + 1) / 2) * y)) by (nonlinear_arith)
                        requires
                            m == d * y,
                            d == p + 1,
                            (p + 1) % 2 == 0,
                    ;
                    lemma_multiple_mod(m as int, 2, (((p + 1) / 2) * y) as int);
                }
            }
            lemma_forbidden_from_primes(m, p + 2);
            assert(factor_count(m, p) == 0);
            }
    }
}

/// The trial-division test is the prime criterion: `n` fails it exactly when
/// some prime `q ≡ 3 (mod 4)` divides `n` an odd number of times.
pub proof fn lemma_forbidden_factor_is_prime_criterion(n: nat)
    ensures
        has_forbidden_factor(n) <==> exists|q: nat| #[trigger] odd_bad_prime(n, q),
{
    if n == 0 {
        assert forall|q: nat| !#[trigger] odd_bad_prime(n, q) by {}
    } else {
        let m = strip_factor(n, 2);
        lemma_strip_facts(n, 2, 2);
        assert(no_divisor_below(m, 3));
        lemma_forbidden_from_primes(m, 3);
        assert forall|d: nat| 2 <= d < 2 implies #[trigger] (2nat % d) != 0 by {}
        assert(is_prime_spec(2));
        if exists|q: nat| #[trigger] odd_bad_prime(m, q) {
            let q = choose|q: nat| #[trigger] odd_bad_prime(m, q);
            lemma_count_strip(n, 2, q);
            assert(odd_bad_prime(n, q));
        }
        if exists|q: nat| #[trigger] odd_bad_prime(n, q) {
            let q = choose|q: nat| #[trigger] odd_bad_prime(n, q);
            lemma_count_strip(n, 2, q);
            assert(odd_bad_prime(m, q));
        }
    }
}

} // verus!

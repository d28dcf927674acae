use vstd::prelude::*;

verus! {

/// Dividing out fours from `n > 0` leaves a number `≡ 7 (mod 8)`: `n` is one
/// of the numbers `4^a·(8b+7)`.
pub open spec fn legendre_excluded(n: nat) -> bool
    decreases n,
{
    if n == 0 {
        false
    } else if n % 4 == 0 {
        legendre_excluded(n / 4)
    } else {
        n % 8 == 7
    }
}

/// The number of bits of `x`: `⌊log₂ x⌋ + 1`, and 0 for 0.
pub open spec fn bit_count(x: nat) -> nat
    decreases x,
{
    if x == 0 {
        0
    } else {
        1 + bit_count(x / 2)
    }
}

/// How many times 2 divides `n` (0 for 0).
pub open spec fn twos(n: nat) -> nat
    decreases n,
{
    if n > 0 && n % 2 == 0 {
        1 + twos(n / 2)
    } else {
        0
    }
}

/// `n` with every factor 2 divided out.
pub open spec fn odd_part(n: nat) -> nat
    decreases n,
{
    if n > 0 && n % 2 == 0 {
        odd_part(n / 2)
    } else {
        n
    }
}

proof fn lemma_leading_zeros(x: u64)
    ensures
        vstd::std_specs::bits::u64_leading_zeros(x) == 64 - bit_count(x as nat),
        bit_count(x as nat) <= 64,
    decreases x,
{
    reveal(vstd::std_specs::bits::u64_leading_zeros);
    if x != 0 {
        lemma_leading_zeros(x / 2);
        vstd::arithmetic::power2::lemma2_to64();
        vstd::arithmetic::power2::lemma2_to64_rest();
        lemma_bit_count_below((x / 2) as nat, 63);
    }
}

/// A number below `2^k` has at most `k` bits.
proof fn lemma_bit_count_below(x: nat, k: nat)
    requires
        k <= 63,
        x < vstd::arithmetic::power2::pow2(k),
    ensures
        bit_count(x) <= k,
{
    vstd::arithmetic::power2::lemma_pow2_pos(k);
    lemma_bit_count_le(x, (vstd::arithmetic::power2::pow2(k) - 1) as nat);
    lemma_bit_count_max(k);
}

proof fn lemma_bit_count_le(x: nat, y: nat)
    requires
        x <= y,
    ensures
        bit_count(x) <= bit_count(y),
    decreases y,
{
    if x > 0 {
        lemma_bit_count_le(x / 2, y / 2);
    }
}

/// `2^k − 1` has exactly `k` bits.
proof fn lemma_bit_count_max(k: nat)
    requires
        k <= 63,
    ensures
        bit_count((vstd::arithmetic::power2::pow2(k) - 1) as nat) == k,
    decreases k,
{
    vstd::arithmetic::power2::lemma_pow2_pos(k);
    if k > 0 {
        lemma_bit_count_max((k - 1) as nat);
        vstd::arithmetic::power2::lemma_pow2_unfold(k);
        vstd::arithmetic::power2::lemma_pow2_pos((k - 1) as nat);
    } else {
        vstd::arithmetic::power2::lemma2_to64();
        vstd::arithmetic::power2::lemma2_to64_rest();
    }
}

/// Returns the bit length of `x` (`⌊log₂ x⌋ + 1`, and 0 for 0).
pub fn bit_length(x: u64) -> (r: u32)
    ensures
        r == bit_count(x as nat),
{
    proof {
        lemma_leading_zeros(x);
    }
    if x == 0 {
        0
    } else {
        64 - x.leading_zeros()
    }
}

/// The mask `!n & (n − 1)` of the trailing zero bits of `n` has `twos(n)` bits,
/// and shifting `n` right by that many bits leaves its odd part.
proof fn lemma_trailing_mask(n: u64)
    requires
        n > 0,
    ensures
        bit_count(((!n) & vstd::prelude::sub(n, 1)) as nat) == twos(n as nat),
        twos(n as nat) < 64,
        n >> (twos(n as nat) as u64) == odd_part(n as nat),
    decreases n,
{
    assert(n >> 0u64 == n) by (bit_vector);
    assert(n / 2 == n >> 1u64) by (bit_vector);
    assert(n % 2 == 0 <==> n & 1 == 0) by (bit_vector);
    if n % 2 == 0 {
        let h = n / 2;
        let m = (!n) & vstd::prelude::sub(n, 1);
        let mh = (!h) & vstd::prelude::sub(h, 1);
        assert(m >> 1u64 == mh && m & 1 == 1 && mh <= 0x3fff_ffff_ffff_ffff) by (bit_vector)
            requires
                n & 1 == 0,
                n != 0,
                h == n >> 1u64,
                m == (!n) & vstd::prelude::sub(n, 1),
                mh == (!h) & vstd::prelude::sub(h, 1),
        ;
        assert(m / 2 == m >> 1u64 && (m & 1 == 1 ==> m % 2 == 1)) by (bit_vector);
        lemma_trailing_mask(h);
        assert(bit_count(m as nat) == 1 + bit_count(mh as nat));
        vstd::arithmetic::power2::lemma2_to64();
        vstd::arithmetic::power2::lemma2_to64_rest();
        lemma_bit_count_below(mh as nat, 62);
        let t = twos(h as nat);
        let tt = t as u64;
        assert(n >> vstd::prelude::add(tt, 1) == (n >> 1u64) >> tt) by (bit_vector)
            requires
                tt < 63,
        ;
    } else {
        assert(n & 1 != 0 ==> (!n) & vstd::prelude::sub(n, 1) == 0) by (bit_vector);
        assert(bit_count(0) == 0);
    }
}

/// `n` is excluded by Legendre's theorem exactly when it has an even number
/// of factors 2 and its odd part is `≡ 7 (mod 8)`.
proof fn lemma_legendre_by_twos(n: nat)
    requires
        n > 0,
    ensures
        legendre_excluded(n) <==> twos(n) % 2 == 0 && odd_part(n) % 8 == 7,
    decreases n,
{
    if n % 2 == 0 {
        let h = n / 2;
        if n % 4 == 0 {
            assert(h % 2 == 0);
            assert(h / 2 == n / 4);
            lemma_legendre_by_twos(n / 4);
            assert(twos(h) == 1 + twos(h / 2));
            assert(odd_part(h) == odd_part(h / 2));
            assert(twos(n) == 2 + twos(n / 4));
            assert(odd_part(n) == odd_part(n / 4));
        } else {
            assert(h % 2 == 1);
            assert(twos(h) == 0);
            assert(twos(n) == 1);
        }
    }
}

/// Legendre's three-square theorem: `n` is a sum of three squares unless
/// `n = 4^a·(8b+7)`. The bits below the lowest set bit of `n` give the power
/// of 2 dividing it; when that power is even, the rest must not be `≡ 7 (mod 8)`.
pub fn can_be_written_as_sum_of_three_squares(n: u64) -> (r: bool)
    ensures
        r == !legendre_excluded(n as nat),
{
    if n == 0 {
        return true;
    }
    let m = bit_length((!n) & (n - 1));
    proof {
        lemma_trailing_mask(n);
        lemma_legendre_by_twos(n as nat);
        let q = n >> (m as u64);
        assert(q & 7 == q % 8) by (bit_vector);
    }
    !(m % 2 == 0 && (n >> m) & 7 == 7)
}

/// `n` is prime: at least 2 and divisible by no number strictly between 1 and `n`.
pub open spec fn is_prime_spec(n: nat) -> bool {
    n >= 2 && forall|d: nat| 2 <= d < n ==> #[trigger] ((n as nat) % d) != 0
}

/// If `k` divides `d` and `d` divides `n`, then `k` divides `n`.
proof fn lemma_divides_trans(n: nat, d: nat, k: nat)
    requires
        k > 0,
        d > 0,
        d % k == 0,
        n % d == 0,
    ensures
        n % k == 0,
{
    vstd::arithmetic::div_mod::lemma_fundamental_div_mod(n as int, d as int);
    vstd::arithmetic::div_mod::lemma_fundamental_div_mod(d as int, k as int);
    let q = n / d;
    let t = d / k;
    assert(n == k * (t * q)) by (nonlinear_arith)
        requires
            n == d * q,
            d == k * t,
    ;
    vstd::arithmetic::div_mod::lemma_mod_multiples_basic((t * q) as int, k as int);
    assert((k * (t * q)) % k == ((t * q) * k) % k) by (nonlinear_arith);
}

/// A divisor `d` of `n` with `p ≤ d < n` and `p² > n` leaves the cofactor
/// `n / d`, a divisor of `n` in `[2, p)`.
proof fn lemma_cofactor(n: nat, d: nat, p: nat)
    requires
        2 <= d < n,
        n % d == 0,
        p <= d,
        p * p > n,
    ensures
        2 <= n / d < p,
        n % (n / d) == 0,
{
    vstd::arithmetic::div_mod::lemma_fundamental_div_mod(n as int, d as int);
    let q = n / d;
    assert(n == d * q);
    assert(2 <= q < p) by (nonlinear_arith)
        requires
            n == d * q,
            d < n,
            p <= d,
            p * p > n,
            d >= 2,
    ;
    assert(n == q * d) by (nonlinear_arith)
        requires
            n == d * q,
    ;
    vstd::arithmetic::div_mod::lemma_mod_multiples_basic(d as int, q as int);
}

/// Checks whether `n` is prime, by trial division with candidates `6k ± 1`.
#[verifier::rlimit(30)]
pub fn is_prime(n: u64) -> (r: bool)
    ensures
        r == is_prime_spec(n as nat),
{
    if n < 2 {
        return false;
    }
    if n == 2 || n == 3 {
        proof {
            assert forall|d: nat| 2 <= d < n implies #[trigger] ((n as nat) % d) != 0 by {}
        }
        return true;
    }
    if n % 2 == 0 || n % 3 == 0 {
        return false;
    }
    proof {
        if n % 4 == 0 {
            lemma_divides_trans(n as nat, 4, 2);
        }
    }
    let mut p: u64 = 5;
    let mut w: u64 = 2;
    let mut pp: u128 = 25;
    while pp <= n as u128
        invariant
            pp == p * p,
            n >= 5,
            n % 2 != 0,
            n % 3 != 0,
            5 <= p < 0x1_0000_0010,
            w == 2 || w == 4,
            w == 2 ==> p % 6 == 5,
            w == 4 ==> p % 6 == 1,
            forall|d: nat| 2 <= d < p ==> #[trigger] ((n as nat) % d) != 0,
        decreases n - p,
    {
        assert(p < 0x1_0000_0000 && p < n) by (nonlinear_arith)
            requires
                p * p <= n,
                n < 0x1_0000_0000_0000_0000,
                p >= 5,
        ;
        if n % p == 0 {
            return false;
        }
        proof {
            assert forall|d: nat| 2 <= d < p + w implies #[trigger] ((n as nat) % d) != 0 by {
                if d > p {
                    if d % 2 == 0 {
                        if (n as nat) % d == 0 {
                            lemma_divides_trans(n as nat, d, 2);
                        }
                    } else {
                        assert(d % 3 == 0);
                        if (n as nat) % d == 0 {
                            lemma_divides_trans(n as nat, d, 3);
                        }
                    }
                }
            }
        }
        p = p + w;
        w = 6 - w;
        assert((p as u128) * (p as u128) <= 0x1_0000_0010 * 0x1_0000_0010) by (nonlinear_arith)
            requires
                p < 0x1_0000_0010,
        ;
        pp = (p as u128) * (p as u128);
    }
    proof {
        assert forall|d: nat| 2 <= d < n implies #[trigger] ((n as nat) % d) != 0 by {
            if d >= p && (n as nat) % d == 0 {
                lemma_cofactor(n as nat, d, p as nat);
                let q = n as nat / d;
                assert((n as nat) % q != 0);
            }
        }
    }
    true
}

/// Three pairs picked from a list, in the order they were picked.
pub type Triple = ((u64, u64), (u64, u64), (u64, u64));

/// Triples `(l[i], l[j], l[k])` for `k` from `k0` up, skipping `k == i`.
pub open spec fn triples_k(l: Seq<(u64, u64)>, i: int, j: int, k0: int) -> Seq<Triple>
    decreases l.len() - k0,
{
    if k0 >= l.len() || k0 < 0 {
        seq![]
    } else if k0 == i {
        triples_k(l, i, j, k0 + 1)
    } else {
        seq![(l[i], l[j], l[k0])] + triples_k(l, i, j, k0 + 1)
    }
}

/// Triples with first index `i` and second index from `j0` up, skipping
/// `j == i`; the third index runs strictly after the second.
pub open spec fn triples_j(l: Seq<(u64, u64)>, i: int, j0: int) -> Seq<Triple>
    decreases l.len() - j0,
{
    if j0 >= l.len() || j0 < 0 {
        seq![]
    } else if j0 == i {
        triples_j(l, i, j0 + 1)
    } else {
        triples_k(l, i, j0, j0 + 1) + triples_j(l, i, j0 + 1)
    }
}

/// Triples whose first index runs from `i0` up.
pub open spec fn triples_i(l: Seq<(u64, u64)>, i0: int) -> Seq<Triple>
    decreases l.len() - i0,
{
    if i0 >= l.len() || i0 < 0 {
        seq![]
    } else {
        triples_j(l, i0, 0) + triples_i(l, i0 + 1)
    }
}

/// The non-symmetric triples of `l`: over index triples `(i, j, k)`, `i`
/// over all positions, `j ≠ i`, `k > j` with `k ≠ i`, in that nesting order.
pub open spec fn nonsymmetric_triples(l: Seq<(u64, u64)>) -> Seq<Triple> {
    triples_i(l, 0)
}

/// Given a slice `lst`, returns all its non-symmetric 3-element selections.
pub fn nonsymetric_permutations_3(lst: &[(u64, u64)]) -> (r: Vec<Triple>)
    ensures
        r@ == nonsymmetric_triples(lst@),
{
    let n = lst.len();
    let ghost l = lst@;
    let mut results: Vec<Triple> = Vec::new();
    let mut i: usize = 0;
    while i < n
        invariant
            n == l.len(),
            l == lst@,
            i <= n,
            results@ + triples_i(l, i as int) == nonsymmetric_triples(l),
        decreases n - i,
    {
        let mut j: usize = 0;
        assert(triples_i(l, i as int) == triples_j(l, i as int, 0) + triples_i(l, i + 1));
        assert(results@ + triples_j(l, i as int, 0) + triples_i(l, i + 1) == nonsymmetric_triples(l));
        while j < n
            invariant
                n == l.len(),
                l == lst@,
                i < n,
                j <= n,
                results@ + triples_j(l, i as int, j as int) + triples_i(l, i + 1)
                    == nonsymmetric_triples(l),
            decreases n - j,
        {
            if j != i {
                let mut k: usize = j + 1;
                assert(triples_j(l, i as int, j as int) == triples_k(l, i as int, j as int, j + 1)
                    + triples_j(l, i as int, j + 1));
                assert(results@ + triples_k(l, i as int, j as int, k as int) + triples_j(
                    l,
                    i as int,
                    j + 1,
                ) + triples_i(l, i + 1) == nonsymmetric_triples(l));
                while k < n
                    invariant
                        n == l.len(),
                        l == lst@,
                        i < n,
                        j < n,
                        j < k <= n,
                        results@ + triples_k(l, i as int, j as int, k as int) + triples_j(
                            l,
                            i as int,
                            j + 1,
                        ) + triples_i(l, i + 1) == nonsymmetric_triples(l),
                    decreases n - k,
                {
                    if k != i {
                        let ghost old_r = results@;
                        results.push((lst[i], lst[j], lst[k]));
                        assert(triples_k(l, i as int, j as int, k as int) == seq![
                            (l[i as int], l[j as int], l[k as int]),
                        ] + triples_k(l, i as int, j as int, k + 1));
                        assert(results@ == old_r + seq![(l[i as int], l[j as int], l[k as int])]);
                    }
                    k = k + 1;
                }
                assert(triples_k(l, i as int, j as int, k as int) == Seq::<Triple>::empty());
            } else {
                assert(triples_j(l, i as int, j as int) == triples_j(l, i as int, j + 1));
            }
            j = j + 1;
        }
        assert(triples_j(l, i as int, j as int) == Seq::<Triple>::empty());
        i = i + 1;
    }
    assert(triples_i(l, i as int) == Seq::<Triple>::empty());
    assert(results@ + Seq::<Triple>::empty() == results@);
    results
}

proof fn lemma_triples_k_len(l: Seq<(u64, u64)>, i: int, j: int, k0: int)
    requires
        0 <= k0 <= l.len(),
    ensures
        triples_k(l, i, j, k0).len() == (l.len() - k0) - (if k0 <= i < l.len() {
            1int
        } else {
            0int
        }),
    decreases l.len() - k0,
{
    if k0 < l.len() {
        lemma_triples_k_len(l, i, j, k0 + 1);
    }
}

proof fn lemma_triples_j_len(l: Seq<(u64, u64)>, i: int, j0: int)
    requires
        0 <= i < l.len(),
        0 <= j0 <= l.len(),
    ensures
        2 * triples_j(l, i, j0).len() == (l.len() - j0) * (l.len() - j0 - 1) - (if j0 <= i {
            2 * (l.len() - 1 - j0)
        } else {
            0int
        }),
    decreases l.len() - j0,
{
    let n = l.len() as int;
    if j0 < n {
        lemma_triples_j_len(l, i, j0 + 1);
        let m = n - j0;
        assert(m * (m - 1) - (m - 1) * (m - 2) == 2 * (m - 1)) by (nonlinear_arith);
        if j0 != i {
            lemma_triples_k_len(l, i, j0, j0 + 1);
        }
    } else {
        assert((n - j0) * (n - j0 - 1) == 0) by (nonlinear_arith)
            requires
                j0 == n,
        ;
    }
}

proof fn lemma_triples_i_len(l: Seq<(u64, u64)>, i0: int)
    requires
        0 <= i0 <= l.len(),
    ensures
        2 * triples_i(l, i0).len() == (l.len() - i0) * ((l.len() - 1) * (l.len() - 2)),
    decreases l.len() - i0,
{
    let n = l.len() as int;
    if i0 < n {
        lemma_triples_i_len(l, i0 + 1);
        lemma_triples_j_len(l, i0, 0);
        assert(n * (n - 1) - 2 * (n - 1) == (n - 1) * (n - 2)) by (nonlinear_arith);
        assert((n - i0) * ((n - 1) * (n - 2)) == (n - i0 - 1) * ((n - 1) * (n - 2)) + (n - 1) * (n
            - 2)) by (nonlinear_arith);
    } else {
        assert((n - i0) * ((n - 1) * (n - 2)) == 0) by (nonlinear_arith)
            requires
                i0 == n,
        ;
    }
}

/// A list of `L` pairs has exactly `L·(L−1)·(L−2)/2` non-symmetric triples.
pub proof fn lemma_nonsymmetric_triples_count(l: Seq<(u64, u64)>)
    ensures
        2 * nonsymmetric_triples(l).len() == l.len() * (l.len() - 1) * (l.len() - 2),
{
    lemma_triples_i_len(l, 0);
    let n = l.len() as int;
    assert(n * ((n - 1) * (n - 2)) == n * (n - 1) * (n - 2)) by (nonlinear_arith);
}

} // verus!

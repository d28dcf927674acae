use crate::generate_squares::{
    PrecomputedPerfectSquares, SumOfSquaresIndex, table_answer, find_sum_of_squares_pairs, floor_sqrt,
    floor_root, is_perfect_square, is_ordered_pair, is_square, lemma_square_pairs_exact,
    perfect_square_answer, sq_root, square_pairs_of,
};
use crate::utils::{
    Triple, can_be_written_as_sum_of_three_squares, legendre_excluded, nonsymetric_permutations_3,
    nonsymmetric_triples, triples_i, triples_j, triples_k,
};
use vstd::prelude::*;

verus! {

/// Whether all checked axes of a square reach the target.
#[derive(PartialEq, Eq, Structural, Clone, Copy, Debug)]
pub enum SolutionType {
    Perfect,
    Partial,
}

/// A quasi-magic square of squares for the target `N`: the grid
/// `a b c / d e f / g h i` of square roots, its kind, and the axis sums
/// that missed `N`.
#[allow(non_snake_case)]
#[derive(Clone, Debug)]
pub struct Solution {
    pub N: u64,
    pub a: u64,
    pub b: u64,
    pub c: u64,
    pub d: u64,
    pub e: u64,
    pub f: u64,
    pub g: u64,
    pub h: u64,
    pub i: u64,
    pub solution_type: SolutionType,
    pub incorrect_axis_values: Vec<u64>,
}

/// A solution as values: target, grid `[a, b, c, d, e, f, g, h, i]`, kind,
/// and the missed axis sums.
pub type SolutionView = (u64, Seq<u64>, SolutionType, Seq<u64>);

impl View for Solution {
    type V = SolutionView;

    open spec fn view(&self) -> SolutionView {
        (
            self.N,
            seq![self.a, self.b, self.c, self.d, self.e, self.f, self.g, self.h, self.i],
            self.solution_type,
            self.incorrect_axis_values@,
        )
    }
}

/// A search's result as values.
pub open spec fn viewed(r: Option<Solution>) -> Option<SolutionView> {
    match r {
        Some(s) => Some(s@),
        None => None,
    }
}

/// `x²` as a natural number.
pub open spec fn sq(x: u64) -> nat {
    (x as nat) * (x as nat)
}

/// No value occurs twice in `s`.
pub open spec fn all_distinct(s: Seq<u64>) -> bool {
    forall|p: int, q: int| 0 <= p < q < s.len() ==> #[trigger] s[p] != #[trigger] s[q]
}

/// The sums among `s1, s3, s6` that differ from `n`, in that order.
pub open spec fn missed_axes(n: nat, s1: nat, s3: nat, s6: nat) -> Seq<u64> {
    (if s1 != n {
        seq![s1 as u64]
    } else {
        seq![]
    }) + (if s3 != n {
        seq![s3 as u64]
    } else {
        seq![]
    }) + (if s6 != n {
        seq![s6 as u64]
    } else {
        seq![]
    })
}

/// The square built from the pairs `(a, i)`, `(b, h)`, `(d, f)` of `o` and
/// the centre `e`, when it is one: `c² = n − a² − b²` and `g² = n − h² − i²`
/// are squares, the nine values are distinct, and at least two of
/// `a²+d²+g²`, `i²+f²+c²`, `c²+e²+g²` equal `n`.
pub open spec fn candidate(n: u64, e: u64, o: Triple) -> Option<SolutionView> {
    let (a, i) = o.0;
    let (b, h) = o.1;
    let (d, f) = o.2;
    let c2 = n - sq(a) - sq(b);
    let g2 = n - sq(h) - sq(i);
    if sq(a) + sq(b) > n || !is_square(c2 as nat) || sq(h) + sq(i) > n || !is_square(
        g2 as nat,
    ) {
        None
    } else {
        let c = sq_root(c2 as nat) as u64;
        let g = sq_root(g2 as nat) as u64;
        let grid = seq![a, b, c, d, e, f, g, h, i];
        let missed = missed_axes(
            n as nat,
            sq(a) + sq(d) + sq(g),
            sq(i) + sq(f) + sq(c),
            sq(c) + sq(e) + sq(g),
        );
        if !all_distinct(grid) || missed.len() > 1 {
            None
        } else {
            Some(
                (
                    n,
                    grid,
                    if missed.len() == 0 {
                        SolutionType::Perfect
                    } else {
                        SolutionType::Partial
                    },
                    missed,
                ),
            )
        }
    }
}

/// A pair with its two values exchanged.
pub open spec fn swapped(p: (u64, u64)) -> (u64, u64) {
    (p.1, p.0)
}

/// The four orientations of a triple: the first pair fixed, the second and
/// third each kept or swapped.
pub open spec fn orientation(t: Triple, k: int) -> Triple {
    if k == 0 {
        t
    } else if k == 1 {
        (t.0, t.1, swapped(t.2))
    } else if k == 2 {
        (t.0, swapped(t.1), t.2)
    } else {
        (t.0, swapped(t.1), swapped(t.2))
    }
}

/// The first orientation from `k` on that gives a square.
pub open spec fn first_orientation(n: u64, e: u64, t: Triple, k: int) -> Option<SolutionView>
    decreases 4 - k,
{
    if k >= 4 || k < 0 {
        None
    } else {
        match candidate(n, e, orientation(t, k)) {
            Some(s) => Some(s),
            None => first_orientation(n, e, t, k + 1),
        }
    }
}

/// The first triple from position `j` on, with its orientations in order,
/// that gives a square.
pub open spec fn first_triple(n: u64, e: u64, ts: Seq<Triple>, j: int) -> Option<SolutionView>
    decreases ts.len() - j,
{
    if j >= ts.len() || j < 0 {
        None
    } else {
        match first_orientation(n, e, ts[j], 0) {
            Some(s) => Some(s),
            None => first_triple(n, e, ts, j + 1),
        }
    }
}

/// The square found for centre `e` from the pairs of `n − e²`: none when
/// there are three pairs or fewer.
pub open spec fn square_at(n: u64, e: u64, ps: Seq<(u64, u64)>) -> Option<SolutionView> {
    if ps.len() <= 3 {
        None
    } else {
        first_triple(n, e, nonsymmetric_triples(ps), 0)
    }
}

/// The pairs of `x` as the search sees them: all of them when computed on
/// demand, only those the index covers when it reads an index up to `bound`.
pub open spec fn pairs_seen(x: nat, bound: Option<nat>) -> Seq<(u64, u64)> {
    match bound {
        None => square_pairs_of(x),
        Some(b) => if 1 <= x <= b {
            square_pairs_of(x)
        } else {
            seq![]
        },
    }
}

/// The first square over centres `e, e+1, …` below `max_e`.
pub open spec fn first_centre(n: u64, e: nat, max_e: nat, bound: Option<nat>) -> Option<
    SolutionView,
>
    decreases max_e - e,
{
    if e >= max_e {
        None
    } else {
        match square_at(n, e as u64, pairs_seen((n - e * e) as nat, bound)) {
            Some(s) => Some(s),
            None => first_centre(n, e + 1, max_e, bound),
        }
    }
}

/// What the search returns for `n`: nothing when `n` is not a sum of three
/// squares, else the first square over centres `1 ≤ e < ⌊√(n/3)⌋`.
pub open spec fn search_result(n: u64, bound: Option<nat>) -> Option<SolutionView> {
    if legendre_excluded(n as nat) {
        None
    } else {
        first_centre(n, 1, floor_sqrt((n / 3) as nat), bound)
    }
}

/// Every triple of `triples_k(l, i, j, k0)` is built from elements of `l`.
proof fn lemma_triples_k_from(l: Seq<(u64, u64)>, i: int, j: int, k0: int)
    requires
        0 <= i < l.len(),
        0 <= j < l.len(),
    ensures
        forall|t: int|
            0 <= t < triples_k(l, i, j, k0).len() ==> {
                let tr = #[trigger] triples_k(l, i, j, k0)[t];
                l.contains(tr.0) && l.contains(tr.1) && l.contains(tr.2)
            },
    decreases l.len() - k0,
{
    if k0 >= l.len() || k0 < 0 {
    } else {
        lemma_triples_k_from(l, i, j, k0 + 1);
        let rest = triples_k(l, i, j, k0 + 1);
        if k0 != i {
            let s = triples_k(l, i, j, k0);
            assert forall|t: int| 0 <= t < s.len() implies {
                let tr = #[trigger] s[t];
                l.contains(tr.0) && l.contains(tr.1) && l.contains(tr.2)
            } by {
                if t == 0 {
                    assert(s[0] == (l[i], l[j], l[k0]));
                } else {
                    assert(s[t] == rest[t - 1]);
                }
            }
        }
    }
}

/// Every triple of `triples_j(l, i, j0)` is built from elements of `l`.
proof fn lemma_triples_j_from(l: Seq<(u64, u64)>, i: int, j0: int)
    requires
        0 <= i < l.len(),
    ensures
        forall|t: int|
            0 <= t < triples_j(l, i, j0).len() ==> {
                let tr = #[trigger] triples_j(l, i, j0)[t];
                l.contains(tr.0) && l.contains(tr.1) && l.contains(tr.2)
            },
    decreases l.len() - j0,
{
    if j0 >= l.len() || j0 < 0 {
    } else {
        lemma_triples_j_from(l, i, j0 + 1);
        if j0 != i {
            lemma_triples_k_from(l, i, j0, j0 + 1);
            let a = triples_k(l, i, j0, j0 + 1);
            let b = triples_j(l, i, j0 + 1);
            let s = triples_j(l, i, j0);
            assert(s == a + b);
            assert forall|t: int| 0 <= t < s.len() implies {
                let tr = #[trigger] s[t];
                l.contains(tr.0) && l.contains(tr.1) && l.contains(tr.2)
            } by {
                if t < a.len() {
                    assert(s[t] == a[t]);
                } else {
                    assert(s[t] == b[t - a.len()]);
                }
            }
        }
    }
}

/// Every non-symmetric triple of `l` from position `i0` on is built from
/// elements of `l`.
proof fn lemma_triples_from(l: Seq<(u64, u64)>, i0: int)
    ensures
        forall|t: int|
            0 <= t < triples_i(l, i0).len() ==> {
                let tr = #[trigger] triples_i(l, i0)[t];
                l.contains(tr.0) && l.contains(tr.1) && l.contains(tr.2)
            },
    decreases l.len() - i0,
{
    if i0 >= l.len() || i0 < 0 {
    } else {
        lemma_triples_from(l, i0 + 1);
        lemma_triples_j_from(l, i0, 0);
        let a = triples_j(l, i0, 0);
        let b = triples_i(l, i0 + 1);
        let s = triples_i(l, i0);
        assert(s == a + b);
        assert forall|t: int| 0 <= t < s.len() implies {
            let tr = #[trigger] s[t];
            l.contains(tr.0) && l.contains(tr.1) && l.contains(tr.2)
        } by {
            if t < a.len() {
                assert(s[t] == a[t]);
            } else {
                assert(s[t] == b[t - a.len()]);
            }
        }
    }
}

/// Tests `k` for a perfect square through the table when there is one.
fn square_test(perfect_squares_precomp: Option<&PrecomputedPerfectSquares>, k: u64) -> (r: (
    bool,
    u64,
))
    ensures
        r == perfect_square_answer(k as nat),
        r.0 ==> r.1 * r.1 == k,
{
    match perfect_squares_precomp {
        Some(prec) => match prec.get(k) {
            Some(ans) => {
                proof {
                    if is_square(k as nat) {
                        lemma_root_fits(k as nat);
                    }
                }
                ans
            },
            None => {
                proof {
                    lemma_no_table_answer(k as nat);
                }
                (false, 0)
            },
        },
        None => is_perfect_square(k),
    }
}

/// Where the table has no answer, `k` is no square.
proof fn lemma_no_table_answer(k: nat)
    requires
        table_answer(k) is None,
    ensures
        perfect_square_answer(k) == (false, 0u64),
{
}

/// No value of `v` occurs twice.
fn pairwise_distinct(v: &Vec<u64>) -> (r: bool)
    ensures
        r == all_distinct(v@),
{
    let n = v.len();
    let mut p: usize = 0;
    while p < n
        invariant
            n == v@.len(),
            p <= n,
            forall|u: int, w: int| 0 <= u < p && u < w < n ==> #[trigger] v@[u] != #[trigger] v@[w],
        decreases n - p,
    {
        let mut q: usize = p + 1;
        while q < n
            invariant
                n == v@.len(),
                p < n,
                p < q <= n,
                forall|u: int, w: int| 0 <= u < p && u < w < n ==> #[trigger] v@[u] != #[trigger] v@[w],
                forall|w: int| p < w < q ==> v@[p as int] != #[trigger] v@[w],
            decreases n - q,
        {
            if v[p] == v[q] {
                return false;
            }
            q = q + 1;
        }
        p = p + 1;
    }
    true
}

/// Checks whether the pairs `(a, i)`, `(b, h)`, `(d, f)` of `ordering`, with
/// the centre `e`, give a (perfect or partial) quasi-magic square for `N`.
#[allow(non_snake_case)]
#[verifier::rlimit(50)]
fn is_magic_square(
    perfect_squares_precomp: Option<&PrecomputedPerfectSquares>,
    ordering: &[(u64, u64); 3],
    e: u64,
    N: u64,
) -> (r: Option<Solution>)
    requires
        3 * N <= u64::MAX,
        sq(e) <= N,
        forall|t: int| 0 <= t < 3 ==> sq(#[trigger] ordering@[t].0) <= N && sq(ordering@[t].1) <= N,
    ensures
        match r {
            Some(s) => candidate(N, e, (ordering@[0], ordering@[1], ordering@[2])) == Some(s@),
            None => candidate(N, e, (ordering@[0], ordering@[1], ordering@[2])) is None,
        },
{
    let (a, i_val) = ordering[0];
    let (b, h) = ordering[1];
    let (d, f) = ordering[2];
    assert(sq(a) <= N && sq(i_val) <= N);
    assert(sq(b) <= N && sq(h) <= N);
    assert(sq(d) <= N && sq(f) <= N);
    let aa = a * a;
    let bb = b * b;
    let dd = d * d;
    let ff = f * f;
    let hh = h * h;
    let ii = i_val * i_val;
    let ee = e * e;

    let sum_ab = aa + bb;
    if sum_ab > N {
        return None;
    }
    let c2 = N - sum_ab;
    let (is_ps_c, c) = square_test(perfect_squares_precomp, c2);
    if !is_ps_c {
        return None;
    }

    let sum_hi = hh + ii;
    if sum_hi > N {
        return None;
    }
    let g2 = N - sum_hi;
    let (is_ps_g, g) = square_test(perfect_squares_precomp, g2);
    if !is_ps_g {
        return None;
    }
    let cc = c * c;
    let gg = g * g;
    assert(sq(c) == cc && sq(g) == gg);

    let assignment = vec![a, b, c, d, e, f, g, h, i_val];
    if !pairwise_distinct(&assignment) {
        return None;
    }

    let s1 = aa + dd + gg;
    let s3 = ii + ff + cc;
    let s6 = cc + ee + gg;

    let mut incorrect_axes: Vec<u64> = Vec::new();
    if s1 != N {
        incorrect_axes.push(s1);
    }
    if s3 != N {
        incorrect_axes.push(s3);
    }
    if s6 != N {
        incorrect_axes.push(s6);
    }
    assert(incorrect_axes@ =~= missed_axes(N as nat, s1 as nat, s3 as nat, s6 as nat));

    if incorrect_axes.len() <= 1 {
        let solution_type = if incorrect_axes.len() == 0 {
            SolutionType::Perfect
        } else {
            SolutionType::Partial
        };
        let sol = Solution {
            N,
            a,
            b,
            c,
            d,
            e,
            f,
            g,
            h,
            i: i_val,
            solution_type,
            incorrect_axis_values: incorrect_axes,
        };
        assert(sol@.1 =~= assignment@);
        return Some(sol);
    }
    None
}

/// The first orientation of the triple `t` that gives a square.
#[allow(non_snake_case)]
fn square_for_triple(
    perfect_squares_precomp: Option<&PrecomputedPerfectSquares>,
    t: Triple,
    e: u64,
    N: u64,
) -> (r: Option<Solution>)
    requires
        3 * N <= u64::MAX,
        sq(e) <= N,
        sq(t.0.0) <= N && sq(t.0.1) <= N,
        sq(t.1.0) <= N && sq(t.1.1) <= N,
        sq(t.2.0) <= N && sq(t.2.1) <= N,
    ensures
        match r {
            Some(s) => first_orientation(N, e, t, 0) == Some(s@),
            None => first_orientation(N, e, t, 0) is None,
        },
{
    let (ai, bh, df) = t;
    let full_orderings: [[(u64, u64); 3]; 4] = [
        [ai, bh, df],
        [ai, bh, (df.1, df.0)],
        [ai, (bh.1, bh.0), df],
        [ai, (bh.1, bh.0), (df.1, df.0)],
    ];
    let mut k: usize = 0;
    while k < 4
        invariant
            3 * N <= u64::MAX,
            sq(e) <= N,
            t == (ai, bh, df),
            sq(ai.0) <= N && sq(ai.1) <= N,
            sq(bh.0) <= N && sq(bh.1) <= N,
            sq(df.0) <= N && sq(df.1) <= N,
            full_orderings@ == seq![
                [ai, bh, df],
                [ai, bh, (df.1, df.0)],
                [ai, (bh.1, bh.0), df],
                [ai, (bh.1, bh.0), (df.1, df.0)],
            ],
            k <= 4,
            first_orientation(N, e, t, 0) == first_orientation(N, e, t, k as int),
        decreases 4 - k,
    {
        let o = full_orderings[k];
        proof {
            assert((o@[0], o@[1], o@[2]) == orientation(t, k as int));
            assert forall|x: int| 0 <= x < 3 implies sq(#[trigger] o@[x].0) <= N && sq(o@[x].1)
                <= N by {}
        }
        match is_magic_square(perfect_squares_precomp, &o, e, N) {
            Some(solution) => {
                return Some(solution);
            },
            None => {},
        }
        k = k + 1;
    }
    None
}

/// The first square for the centre `e` from the pairs of `N − e²`, over the
/// non-symmetric triples and their four orientations in order.
#[allow(non_snake_case)]
fn square_for_centre(
    perfect_squares_precomp: Option<&PrecomputedPerfectSquares>,
    pairs_list: &Vec<(u64, u64)>,
    e: u64,
    N: u64,
) -> (r: Option<Solution>)
    requires
        3 * N <= u64::MAX,
        sq(e) <= N,
        forall|t: int|
            0 <= t < pairs_list@.len() ==> sq((#[trigger] pairs_list@[t]).0) <= N && sq(
                pairs_list@[t].1,
            ) <= N,
    ensures
        match r {
            Some(s) => square_at(N, e, pairs_list@) == Some(s@),
            None => square_at(N, e, pairs_list@) is None,
        },
{
    if pairs_list.len() <= 3 {
        return None;
    }
    let orderings = nonsymetric_permutations_3(pairs_list.as_slice());
    let ghost l = pairs_list@;
    let ghost ts = orderings@;
    proof {
        lemma_triples_from(l, 0);
    }
    let mut j: usize = 0;
    while j < orderings.len()
        invariant
            ts == orderings@,
            ts == nonsymmetric_triples(l),
            l == pairs_list@,
            l.len() > 3,
            3 * N <= u64::MAX,
            sq(e) <= N,
            forall|t: int| 0 <= t < l.len() ==> sq((#[trigger] l[t]).0) <= N && sq(l[t].1) <= N,
            forall|t: int|
                0 <= t < ts.len() ==> {
                    let tr = #[trigger] ts[t];
                    l.contains(tr.0) && l.contains(tr.1) && l.contains(tr.2)
                },
            j <= ts.len(),
            first_triple(N, e, ts, 0) == first_triple(N, e, ts, j as int),
        decreases ts.len() - j,
    {
        let (ai, bh, df) = orderings[j];
        proof {
            let tr = ts[j as int];
            assert(l.contains(tr.0) && l.contains(tr.1) && l.contains(tr.2));
            let u1 = choose|u: int| 0 <= u < l.len() && l[u] == ai;
            let u2 = choose|u: int| 0 <= u < l.len() && l[u] == bh;
            let u3 = choose|u: int| 0 <= u < l.len() && l[u] == df;
            assert(sq(l[u1].0) <= N && sq(l[u2].0) <= N && sq(l[u3].0) <= N);
        }
        match square_for_triple(perfect_squares_precomp, (ai, bh, df), e, N) {
            Some(solution) => {
                return Some(solution);
            },
            None => {},
        }
        j = j + 1;
    }
    None
}

/// Searches for a quasi-magic square of squares with target `N`, returning the
/// first one met in the fixed order: centre `e` ascending, then non-symmetric
/// triples of the pairs of `N − e²`, then their four orientations. The table
/// and the index, when given, replace computing roots and pairs on demand.
#[allow(non_snake_case)]
pub fn find_perfect_squares(
    perfect_squares_precomp: Option<&PrecomputedPerfectSquares>,
    precomputed_square_sums: Option<&SumOfSquaresIndex>,
    N: u64,
) -> (r: Option<Solution>)
    requires
        3 * N <= u64::MAX,
    ensures
        viewed(r) == search_result(
            N,
            match precomputed_square_sums {
                Some(idx) => Some(idx.bound()),
                None => None,
            },
        ),
{
    let ghost bound = match precomputed_square_sums {
        Some(idx) => Some(idx.bound()),
        None => None,
    };
    if !can_be_written_as_sum_of_three_squares(N) {
        return None;
    }
    let max_val = floor_root(N / 3);
    let mut e: u64 = 1;
    while e < max_val
        invariant
            3 * N <= u64::MAX,
            1 <= e,
            max_val == floor_sqrt((N / 3) as nat),
            max_val * max_val <= N / 3,
            bound == match precomputed_square_sums {
                Some(idx) => Some(idx.bound()),
                None => None::<nat>,
            },
            !legendre_excluded(N as nat),
            search_result(N, bound) == first_centre(N, e as nat, max_val as nat, bound),
        decreases max_val - e,
    {
        assert(e * e <= N / 3) by (nonlinear_arith)
            requires
                e < max_val,
                max_val * max_val <= N / 3,
        ;
        let x = N - e * e;
        proof {
            lemma_square_pairs_exact(x as nat);
            let ps = square_pairs_of(x as nat);
            assert forall|t: int| 0 <= t < ps.len() implies sq((#[trigger] ps[t]).0) <= N && sq(
                ps[t].1,
            ) <= N by {
                assert(is_ordered_pair(x as nat, ps[t]));
            }
        }
        let found = match precomputed_square_sums {
            Some(prec) => match prec.get(x) {
                Some(pairs_list) => square_for_centre(perfect_squares_precomp, pairs_list, e, N),
                None => None,
            },
            None => {
                let pairs_list = find_sum_of_squares_pairs(x);
                square_for_centre(perfect_squares_precomp, &pairs_list, e, N)
            },
        };
        if found.is_some() {
            return found;
        }
        e = e + 1;
    }
    None
}

/// A solution as the search vouches for it: target `n`, nine distinct values,
/// rows `a b c` and `g h i` summing to `n` in squares, and the missed axes
/// among `a²+d²+g²`, `i²+f²+c²`, `c²+e²+g²` at most one, listed in order, the
/// kind `Perfect` exactly when none is missed.
pub open spec fn vouched(n: u64, s: SolutionView) -> bool {
    let g = s.1;
    &&& s.0 == n
    &&& g.len() == 9
    &&& all_distinct(g)
    &&& sq(g[0]) + sq(g[1]) + sq(g[2]) == n
    &&& sq(g[6]) + sq(g[7]) + sq(g[8]) == n
    &&& s.3 == missed_axes(
        n as nat,
        sq(g[0]) + sq(g[3]) + sq(g[6]),
        sq(g[8]) + sq(g[5]) + sq(g[2]),
        sq(g[2]) + sq(g[4]) + sq(g[6]),
    )
    &&& s.3.len() <= 1
    &&& (s.2 == SolutionType::Perfect <==> s.3.len() == 0)
}

proof fn lemma_root_fits(k: nat)
    requires
        is_square(k),
        k <= u64::MAX,
    ensures
        sq_root(k) * sq_root(k) == k,
        sq_root(k) <= u64::MAX,
{
    let r = sq_root(k);
    assert(r * r == k);
    assert(r <= k) by (nonlinear_arith)
        requires
            r * r == k,
    ;
}

proof fn lemma_candidate_vouched(n: u64, e: u64, o: Triple)
    ensures
        candidate(n, e, o) matches Some(s) ==> vouched(n, s),
{
    let (a, i) = o.0;
    let (b, h) = o.1;
    let c2 = n - sq(a) - sq(b);
    let g2 = n - sq(h) - sq(i);
    if candidate(n, e, o) is Some {
        lemma_root_fits(c2 as nat);
        lemma_root_fits(g2 as nat);
    }
}

proof fn lemma_first_orientation_vouched(n: u64, e: u64, t: Triple, k: int)
    ensures
        first_orientation(n, e, t, k) matches Some(s) ==> vouched(n, s),
    decreases 4 - k,
{
    if 0 <= k < 4 {
        lemma_candidate_vouched(n, e, orientation(t, k));
        lemma_first_orientation_vouched(n, e, t, k + 1);
    }
}

proof fn lemma_first_triple_vouched(n: u64, e: u64, ts: Seq<Triple>, j: int)
    ensures
        first_triple(n, e, ts, j) matches Some(s) ==> vouched(n, s),
    decreases ts.len() - j,
{
    if 0 <= j < ts.len() {
        lemma_first_orientation_vouched(n, e, ts[j], 0);
        lemma_first_triple_vouched(n, e, ts, j + 1);
    }
}

proof fn lemma_first_centre_vouched(n: u64, e: nat, max_e: nat, bound: Option<nat>)
    ensures
        first_centre(n, e, max_e, bound) matches Some(s) ==> vouched(n, s),
    decreases max_e - e,
{
    if e < max_e {
        let ps = pairs_seen((n - e * e) as nat, bound);
        if ps.len() > 3 {
            lemma_first_triple_vouched(n, e as u64, nonsymmetric_triples(ps), 0);
        }
        lemma_first_centre_vouched(n, e + 1, max_e, bound);
    }
}

/// Whatever strategy it reads, the search only returns squares whose nine
/// values are pairwise distinct and where at least two of the three checked
/// axes reach the target.
pub proof fn lemma_search_vouched(n: u64, bound: Option<nat>)
    ensures
        search_result(n, bound) matches Some(s) ==> vouched(n, s),
{
    if !legendre_excluded(n as nat) {
        lemma_first_centre_vouched(n, 1, floor_sqrt((n / 3) as nat), bound);
    }
}

/// Two searches for the same target over the same index return the same
/// result, whether or not a table of squares is given to either.
pub proof fn lemma_search_repeatable(
    n: u64,
    bound: Option<nat>,
    r1: Option<Solution>,
    r2: Option<Solution>,
)
    requires
        viewed(r1) == search_result(n, bound),
        viewed(r2) == search_result(n, bound),
    ensures
        viewed(r1) == viewed(r2),
{
}

} // verus!

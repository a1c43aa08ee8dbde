//! Evaluation of polynomials given in the Lagrange basis over the powers
//! of a root of unity, without conversion to coefficient form.
//!
//! A polynomial of power-of-two length `n` is an ordered sequence of field
//! elements; entry `i` is the polynomial's value at the `i`-th power of the
//! primitive `n`-th root of unity. The evaluators below run the incremental
//! barycentric recurrence of the rhizomes family of algorithms; their
//! contracts state the closed weighted-sum formula the recurrence computes.

use crate::field::{
    f_add, f_inv, f_mul, f_neg, f_pow, f_sub, fp, lemma_fmul_assoc, lemma_fmul_distrib,
    lemma_fmul_abc, lemma_fmul_neg_one, lemma_fpow_add, lemma_fpow_of_square, lemma_fpow_succ,
    lemma_generator_half_order, lemma_half_two, lemma_root_half_order, lemma_root_square,
    root_of_unity, Fe, HALF,
};
use vstd::arithmetic::div_mod::{lemma_add_mod_noop, lemma_mod_add_multiples_vanish,
    lemma_mod_division_less_than_divisor, lemma_mod_self_0, lemma_small_mod};
use vstd::arithmetic::power::{lemma_pow0, lemma_pow1};
use vstd::arithmetic::power2::{lemma2_to64, lemma2_to64_rest, lemma_pow2_pos,
    lemma_pow2_strictly_increases, lemma_pow2_unfold, pow2};
use crate::ntt::{ntt_inv_finish, ntt_star};
use vstd::prelude::*;

verus! {

/// The residues of a sequence of field elements.
pub open spec fn residues(s: Seq<Fe>) -> Seq<int> {
    Seq::new(s.len(), |i: int| s[i]@)
}

/// Every element of the sequence is a canonical residue.
pub open spec fn all_wf(s: Seq<Fe>) -> bool {
    forall|i: int| 0 <= i < s.len() ==> (#[trigger] s[i]).wf()
}

/// The base-two logarithm, rounded down.
pub open spec fn lg(n: nat) -> nat
    decreases n,
{
    if n <= 1 {
        0
    } else {
        1 + lg(n / 2)
    }
}

/// `n` is an exact power of two.
pub open spec fn is_pow2(n: nat) -> bool {
    n == pow2(lg(n))
}

/// The logarithm inverts the power.
pub proof fn lemma_lg_pow2(k: nat)
    ensures
        lg(pow2(k)) == k,
    decreases k,
{
    if k == 0 {
        lemma2_to64();
    } else {
        lemma_pow2_unfold(k);
        lemma_pow2_pos((k - 1) as nat);
        lemma_lg_pow2((k - 1) as nat);
        assert(pow2(k) == 2 * pow2((k - 1) as nat));
        assert(pow2(k) / 2 == pow2((k - 1) as nat)) by (nonlinear_arith)
            requires
                pow2(k) == 2 * pow2((k - 1) as nat),
        ;
        assert(pow2(k) > 1);
        assert(lg(pow2(k)) == 1 + lg(pow2(k) / 2));
    }
}

/// A power of two above one halves to the next power of two down.
pub proof fn lemma_pow2_halves(n: nat)
    requires
        is_pow2(n),
        n > 1,
    ensures
        n % 2 == 0,
        is_pow2(n / 2),
        lg(n / 2) == lg(n) - 1,
        lg(n) >= 1,
{
    let k = lg(n);
    if k == 0 {
        lemma2_to64();
        assert(false);
    }
    lemma_pow2_unfold(k);
    lemma_pow2_pos((k - 1) as nat);
    lemma_lg_pow2((k - 1) as nat);
    assert(n / 2 == pow2((k - 1) as nat));
}

/// A power of two that fits in a machine word is below the modulus.
pub proof fn lemma_pow2_fits(n: nat)
    requires
        is_pow2(n),
        n <= u64::MAX,
    ensures
        lg(n) <= 63,
        n < fp(),
{
    lemma2_to64_rest();
    if lg(n) > 64 {
        lemma_pow2_strictly_increases(64, lg(n));
        assert(false);
    }
    if lg(n) == 64 {
        assert(false);
    }
    if lg(n) < 63 {
        lemma_pow2_strictly_increases(lg(n), 63);
    }
}

/// The base-two logarithm of a power of two.
pub(crate) fn log2_exact(n: usize) -> (r: usize)
    requires
        is_pow2(n as nat),
    ensures
        r as nat == lg(n as nat),
        n as nat == pow2(r as nat),
{
    let mut m: usize = n;
    let mut k: usize = 0;
    proof {
        lemma_pow2_pos(lg(n as nat));
    }
    while m > 1
        invariant
            m >= 1,
            is_pow2(n as nat),
            is_pow2(m as nat),
            lg(n as nat) == k as nat + lg(m as nat),
            k <= 64,
        decreases m,
    {
        proof {
            lemma_pow2_halves(m as nat);
            if k as nat + 1 + lg((m / 2) as nat) > 64 {
                lemma_pow2_fits(n as nat);
                assert(false);
            }
        }
        m = m / 2;
        k = k + 1;
    }
    k
}

/// The running product of half, `(1/2)^n` in the field.
fn half_power(n: usize) -> (r: Fe)
    ensures
        r.wf(),
        r@ == f_pow(HALF as int, n as nat),
{
    let half = Fe::half();
    let mut x = Fe::one();
    let mut i: usize = 0;
    proof {
        lemma_pow0(HALF as int);
        lemma_small_mod(1nat, fp() as nat);
    }
    while i < n
        invariant
            i <= n,
            x.wf(),
            half.wf(),
            half@ == HALF as int,
            x@ == f_pow(HALF as int, i as nat),
        decreases n - i,
    {
        proof {
            lemma_fpow_succ(HALF as int, i as nat);
        }
        x = x.mul(half);
        i = i + 1;
    }
    x
}

/// `(1/2)^k` multiplied by `2^k` is one, as long as `2^k` stays below the modulus.
pub proof fn lemma_half_pow_inverse(k: nat)
    requires
        pow2(k) < fp(),
    ensures
        f_mul(f_pow(HALF as int, k), pow2(k) as int) == 1,
    decreases k,
{
    let h = HALF as int;
    if k == 0 {
        lemma2_to64();
        lemma_pow0(h);
        lemma_small_mod(1nat, fp() as nat);
    } else {
        lemma_pow2_unfold(k);
        lemma_pow2_pos((k - 1) as nat);
        lemma_half_pow_inverse((k - 1) as nat);
        let a = f_pow(h, (k - 1) as nat);
        let p = pow2((k - 1) as nat) as int;
        lemma_fpow_succ(h, (k - 1) as nat);
        assert(f_pow(h, k) == f_mul(h, a));
        assert(pow2(k) as int == 2 * p);
        // (h * a) * (2 * p) == h * ((a * p) * 2), rearranged under the modulus
        lemma_fmul_assoc(h, a, 2 * p);
        assert(f_mul(a, 2 * p) == f_mul(2, f_mul(a, p))) by {
            assert(a * (2 * p) == 2 * (a * p)) by (nonlinear_arith);
            vstd::arithmetic::div_mod::lemma_mul_mod_noop_general(2, a * p, fp());
        };
        assert(f_mul(a, p) == 1);
        assert(f_mul(2, 1) == 2) by {
            lemma_small_mod(2nat, fp() as nat);
        };
        assert(f_mul(a, 2 * p) == 2);
        assert(f_mul(f_mul(h, a), 2 * p) == f_mul(h, 2));
        lemma_half_two();
        assert(f_mul(h, 2) == 1);
    }
}

/// Returns `1/n` in the field; `n` must be an exact power of two.
pub fn inv_pow2(n: usize) -> (r: Fe)
    requires
        is_pow2(n as nat),
    ensures
        r.wf(),
        r@ == f_pow(HALF as int, lg(n as nat)),
        f_mul(r@, n as int) == 1,
{
    let k = log2_exact(n);
    proof {
        lemma_pow2_fits(n as nat);
        lemma_half_pow_inverse(k as nat);
    }
    half_power(k)
}


/// The product of point differences `roots[j] - x` over `0 <= j < hi`,
/// skipping index `skip`, in the field.
pub open spec fn diff_prod(roots: Seq<int>, x: int, hi: int, skip: int) -> int
    decreases hi,
{
    if hi <= 0 {
        1
    } else if hi - 1 == skip {
        diff_prod(roots, x, hi - 1, skip)
    } else {
        f_mul(diff_prod(roots, x, hi - 1, skip), f_sub(roots[hi - 1], x))
    }
}

/// The contribution of sample `i` to the rhizome recurrence over the first
/// `hi` roots: its value, times its root (the first sample carries no root
/// factor), times every other point difference.
pub open spec fn rh_term(poly: Seq<int>, roots: Seq<int>, x: int, i: int, hi: int) -> int {
    f_mul(
        poly[i],
        f_mul(if i == 0 { 1int } else { roots[i] }, diff_prod(roots, x, hi, i)),
    )
}

/// The sum of the first `count` sample contributions over the first `hi` roots.
pub open spec fn rh_sum(poly: Seq<int>, roots: Seq<int>, x: int, count: int, hi: int) -> int
    decreases count,
{
    if count <= 0 {
        0
    } else {
        f_add(
            rh_sum(poly, roots, x, count - 1, hi),
            rh_term(poly, roots, x, count - 1, hi),
        )
    }
}

/// What evaluating a Lagrange-basis polynomial over a root table yields: the
/// weighted sum over every sample, with the table's unused upper positions
/// acting as zero-padding, scaled by `-1/roots.len()` when the table is
/// larger than one.
pub open spec fn rhizome_eval(poly: Seq<int>, roots: Seq<int>, x: int) -> int {
    let s = rh_sum(poly, roots, x, poly.len() as int, roots.len() as int);
    if roots.len() > 1 {
        f_mul(s, f_neg(f_pow(HALF as int, lg(roots.len()))))
    } else {
        s
    }
}

/// A skip index outside the range does not change the product.
pub proof fn lemma_diff_prod_skip_high(roots: Seq<int>, x: int, hi: int, s1: int, s2: int)
    requires
        s1 >= hi,
        s2 >= hi,
    ensures
        diff_prod(roots, x, hi, s1) == diff_prod(roots, x, hi, s2),
    decreases hi,
{
    if hi > 0 {
        lemma_diff_prod_skip_high(roots, x, hi - 1, s1, s2);
    }
}

/// Scaling a partial sum by the next point difference widens every term's
/// product by one root.
pub proof fn lemma_rh_sum_scale(poly: Seq<int>, roots: Seq<int>, x: int, count: int, hi: int)
    requires
        0 <= count <= hi,
    ensures
        rh_sum(poly, roots, x, count, hi + 1) == f_mul(
            rh_sum(poly, roots, x, count, hi),
            f_sub(roots[hi], x),
        ),
    decreases count,
{
    let d = f_sub(roots[hi], x);
    if count <= 0 {
        lemma_small_mod(0nat, fp() as nat);
    } else {
        let i = count - 1;
        lemma_rh_sum_scale(poly, roots, x, i, hi);
        let y = poly[i];
        let w = if i == 0 { 1int } else { roots[i] };
        let dp = diff_prod(roots, x, hi, i);
        assert(diff_prod(roots, x, hi + 1, i) == f_mul(dp, d));
        lemma_fmul_assoc(w, dp, d);
        lemma_fmul_assoc(y, f_mul(w, dp), d);
        lemma_fmul_distrib(
            rh_sum(poly, roots, x, i, hi),
            rh_term(poly, roots, x, i, hi),
            d,
        );
    }
}

/// Evaluates a polynomial given in the Lagrange basis at the point `x`.
///
/// Runs the incremental barycentric recurrence: one field multiply-and-add
/// per sample, one multiply per unused upper root of an oversized table
/// (implicit zero-padding), and a final scaling by `-1/roots.len()` whenever
/// the table holds more than one root.
pub fn poly_eval_rhizomes(poly: &[Fe], roots: &[Fe], x: &Fe) -> (r: Fe)
    requires
        1 <= poly@.len() <= roots@.len(),
        is_pow2(roots@.len() as nat),
        all_wf(poly@),
        all_wf(roots@),
        x.wf(),
    ensures
        r.wf(),
        r@ == rhizome_eval(residues(poly@), residues(roots@), x@),
{
    let ghost gp = residues(poly@);
    let ghost gr = residues(roots@);
    let n = poly.len();
    let nr = roots.len();
    let mut l = Fe::one();
    let mut u = poly[0];
    let mut d = roots[0].sub(*x);
    let mut i: usize = 1;
    proof {
        assert(diff_prod(gr, x@, 0, 0) == 1);
        assert(diff_prod(gr, x@, 1, 0) == 1);
        assert(rh_sum(gp, gr, x@, 0, 1) == 0);
        lemma_small_mod(1nat, fp() as nat);
        lemma_small_mod(u@ as nat, fp() as nat);
        assert(gp[0] == u@);
        assert(f_mul(1int, 1) == 1);
        assert(rh_term(gp, gr, x@, 0, 1) == f_mul(gp[0], f_mul(1int, 1)));
        assert(f_mul(gp[0], 1) == gp[0]);
        assert(rh_sum(gp, gr, x@, 1, 1) == f_add(0, gp[0]));
        assert(f_add(0, gp[0]) == gp[0]);
    }
    while i < n
        invariant
            1 <= i <= n,
            n == poly@.len(),
            nr == roots@.len(),
            n <= nr,
            gp == residues(poly@),
            gr == residues(roots@),
            all_wf(poly@),
            all_wf(roots@),
            x.wf(),
            l.wf(),
            u.wf(),
            d.wf(),
            l@ == diff_prod(gr, x@, i - 1, i - 1),
            d@ == f_sub(gr[i - 1], x@),
            u@ == rh_sum(gp, gr, x@, i as int, i as int),
        decreases n - i,
    {
        proof {
            lemma_diff_prod_skip_high(gr, x@, i - 1, i - 1, i as int);
            assert(diff_prod(gr, x@, i as int, i as int) == f_mul(
                diff_prod(gr, x@, i - 1, i as int),
                f_sub(gr[i - 1], x@),
            ));
        }
        l = l.mul(d);
        d = roots[i].sub(*x);
        let t = l.mul(roots[i]).mul(poly[i]);
        proof {
            lemma_rh_sum_scale(gp, gr, x@, i as int, i as int);
            // the new term: value times root times the product over all earlier roots
            lemma_diff_prod_skip_high(gr, x@, i as int, i as int, i + 1);
            assert(diff_prod(gr, x@, i + 1, i as int) == diff_prod(gr, x@, i as int, i as int));
            lemma_fmul_abc(l@, gr[i as int], gp[i as int]);
            assert(rh_term(gp, gr, x@, i as int, i + 1) == f_mul(
                gp[i as int],
                f_mul(gr[i as int], diff_prod(gr, x@, i + 1, i as int)),
            ));
        }
        u = u.mul(d).add(t);
        i = i + 1;
    }
    while i < nr
        invariant
            n <= i <= nr,
            n == poly@.len(),
            nr == roots@.len(),
            gp == residues(poly@),
            gr == residues(roots@),
            all_wf(poly@),
            all_wf(roots@),
            x.wf(),
            u.wf(),
            u@ == rh_sum(gp, gr, x@, n as int, i as int),
        decreases nr - i,
    {
        proof {
            lemma_rh_sum_scale(gp, gr, x@, n as int, i as int);
        }
        u = u.mul(roots[i].sub(*x));
        i = i + 1;
    }
    if nr > 1 {
        let scale = inv_pow2(nr).neg();
        u = u.mul(scale);
    }
    u
}


/// Generates the powers of the primitive `n`-th root of unity.
///
/// Entry `i` of the table is `w^i` for the primitive root `w` of order `n`,
/// which must be a power of two within the field's two-adicity. The table is
/// grown by doubling: known roots of the half-size domain land on the even
/// positions, a fresh primitive root fills position one, and the remaining
/// odd positions follow by one multiplication each together with the
/// negation symmetry `w^(j + n/2) == -w^j`.
pub fn nth_root_powers(n: usize) -> (r: Vec<Fe>)
    requires
        is_pow2(n as nat),
        lg(n as nat) <= 32,
    ensures
        r@.len() == n,
        all_wf(r@),
        forall|i: int|
            0 <= i < n ==> (#[trigger] r@[i])@ == f_pow(root_of_unity(lg(n as nat)), i as nat),
{
    let ghost kn = lg(n as nat);
    proof {
        lemma_pow2_pos(kn);
    }
    let mut roots: Vec<Fe> = vec![Fe::zero(); n];
    roots[0] = Fe::one();
    proof {
        lemma_small_mod(1nat, fp() as nat);
        lemma_pow0(root_of_unity(kn));
    }
    if n == 1 {
        return roots;
    }
    roots[1] = Fe::one().neg();
    let mut m: usize = 2;
    let mut logm: usize = 1;
    proof {
        lemma_generator_half_order();
        lemma2_to64();
        assert(root_of_unity(1) == fp() - 1);
        lemma_pow1(root_of_unity(1));
        lemma_pow0(root_of_unity(1));
        lemma_small_mod((fp() - 1) as nat, fp() as nat);
        assert(lg(2) == 1 + lg(1));
        assert((fp() - 1) % fp() == fp() - 1);
        assert(f_neg(1) == fp() - 1) by {
            lemma_mod_add_multiples_vanish(0 - 1, fp());
        };
    }
    while m < n
        invariant
            2 <= m <= n,
            n == pow2(kn),
            kn == lg(n as nat),
            kn <= 32,
            is_pow2(m as nat),
            logm as nat == lg(m as nat),
            roots@.len() == n,
            all_wf(roots@),
            forall|p: int|
                0 <= p < m ==> (#[trigger] roots@[p])@ == f_pow(root_of_unity(lg(m as nat)), p as nat),
        decreases n - m,
    {
        let ghost w_old = root_of_unity(lg(m as nat));
        let ghost w_new = root_of_unity((lg(m as nat) + 1) as nat);
        proof {
            // doubling stays within the table and the field's two-adicity
            lemma_pow2_unfold((lg(m as nat) + 1) as nat);
            lemma_lg_pow2((lg(m as nat) + 1) as nat);
            lemma_pow2_halves(m as nat);
            if lg(m as nat) >= kn {
                if lg(m as nat) > kn {
                    lemma_pow2_strictly_increases(kn, lg(m as nat));
                }
                assert(false);
            }
            if lg(m as nat) + 1 < kn {
                lemma_pow2_strictly_increases((lg(m as nat) + 1) as nat, kn);
            }
            assert(2 * m <= n);
            assert(m % 2 == 0);
            lemma_root_square((lg(m as nat) + 1) as nat);
            lemma_root_half_order((lg(m as nat) + 1) as nat);
            lemma_pow0(w_new);
            lemma_pow1(w_new);
            lemma_small_mod(1nat, fp() as nat);
        }
        // move the known half-size roots onto the even positions
        let mut j: usize = m - 1;
        while j >= 1
            invariant
                1 <= m,
                2 * m <= n,
                j <= m - 1,
                roots@.len() == n,
                all_wf(roots@),
                forall|p: int| 0 <= p <= j ==> (#[trigger] roots@[p])@ == f_pow(w_old, p as nat),
                forall|p: int|
                    2 * (j as int) + 2 <= p < 2 * m && p % 2 == 0 ==> (#[trigger] roots@[p])@
                        == f_pow(w_old, (p / 2) as nat),
            decreases j,
        {
            roots[2 * j] = roots[j];
            j = j - 1;
        }
        proof {
            assert forall|p: int| 0 <= p < 2 * m && p % 2 == 0 implies (#[trigger] roots@[p])@
                == f_pow(w_new, p as nat) by {
                if p == 0 {
                    lemma_pow0(w_old);
                } else {
                    lemma_fpow_of_square(w_new, (p / 2) as nat);
                }
            };
        }
        let wn = match Fe::root(logm + 1) {
            Some(w) => w,
            None => vstd::pervasive::unreached(),
        };
        let wneg = wn.neg();
        roots[1] = wn;
        roots[1 + m] = wneg;
        proof {
            lemma_fpow_add(w_new, 1, m as nat);
            lemma_fmul_neg_one(w_new);
            assert(f_pow(w_new, m as nat) == fp() - 1);
            assert(f_pow(w_new, 1) == w_new);
            assert(f_pow(w_new, 1 + m as nat) == f_mul(w_new, fp() - 1));
            assert(f_mul(w_new, fp() - 1) == f_neg(w_new));
        }
        let mut j: usize = 3;
        while j < m
            invariant
                2 <= m,
                2 * m <= n,
                m % 2 == 0,
                j % 2 == 1,
                3 <= j <= m + 1,
                wn.wf(),
                wn@ == w_new,
                f_pow(w_new, m as nat) == fp() - 1,
                roots@.len() == n,
                all_wf(roots@),
                forall|p: int|
                    0 <= p < 2 * m && p % 2 == 0 ==> (#[trigger] roots@[p])@
                        == f_pow(w_new, p as nat),
                forall|p: int|
                    0 <= p < j && p % 2 == 1 ==> (#[trigger] roots@[p])@
                        == f_pow(w_new, p as nat),
                forall|p: int|
                    m <= p < m + j && p % 2 == 1 ==> (#[trigger] roots@[p])@
                        == f_pow(w_new, p as nat),
            decreases m + 2 - j,
        {
            proof {
                lemma_fpow_succ(w_new, (j - 1) as nat);
                lemma_fpow_add(w_new, j as nat, m as nat);
                lemma_fmul_neg_one(f_pow(w_new, j as nat));
            }
            let t = wn.mul(roots[j - 1]);
            roots[j] = t;
            roots[j + m] = t.neg();
            j = j + 2;
        }
        m = 2 * m;
        logm = logm + 1;
        proof {
            assert forall|p: int| 0 <= p < m implies (#[trigger] roots@[p])@
                == f_pow(root_of_unity(lg(m as nat)), p as nat) by {
            };
        }
    }
    roots
}


/// The product of point differences `roots[i] - roots[j]` over `0 <= j < hi`,
/// skipping `j == i`, in the field.
pub open spec fn weight_prod(roots: Seq<int>, i: int, hi: int) -> int
    decreases hi,
{
    if hi <= 0 {
        1
    } else if hi - 1 == i {
        weight_prod(roots, i, hi - 1)
    } else {
        f_mul(weight_prod(roots, i, hi - 1), f_sub(roots[i], roots[hi - 1]))
    }
}

/// The barycentric Lagrange weight of point `i` among points `0..=m`:
/// the inverse of the product of its differences with every other point.
pub open spec fn lag_weight(roots: Seq<int>, m: int, i: int) -> int {
    f_inv(weight_prod(roots, i, m + 1))
}

/// The weighted sum of the first `count` values by their Lagrange weights.
pub open spec fn weight_sum(values: Seq<int>, roots: Seq<int>, m: int, count: int) -> int
    decreases count,
{
    if count <= 0 {
        0
    } else {
        f_add(
            weight_sum(values, roots, m, count - 1),
            f_mul(values[count - 1], lag_weight(roots, m, count - 1)),
        )
    }
}

/// The sum of the first `count` values, each multiplied by the root at the
/// cyclically offset position `(off + i) mod roots.len()`.
pub open spec fn cyclic_sum(values: Seq<int>, roots: Seq<int>, off: int, count: int) -> int
    decreases count,
{
    if count <= 0 {
        0
    } else {
        f_add(
            cyclic_sum(values, roots, off, count - 1),
            f_mul(values[count - 1], roots[(off + count - 1) % (roots.len() as int)]),
        )
    }
}

/// The barycentric Lagrange weight of point `i` among points `0..=m`.
fn term_w(m: usize, i: usize, roots: &[Fe]) -> (r: Fe)
    requires
        i <= m,
        m < roots@.len(),
        all_wf(roots@),
    ensures
        r.wf(),
        r@ == lag_weight(residues(roots@), m as int, i as int),
{
    let ghost gr = residues(roots@);
    let nr = roots.len();
    let mut w = Fe::one();
    let mut j: usize = 0;
    proof {
        lemma_small_mod(1nat, fp() as nat);
    }
    while j <= m
        invariant
            j <= m + 1,
            i <= m,
            nr == roots@.len(),
            m < nr,
            gr == residues(roots@),
            all_wf(roots@),
            w.wf(),
            w@ == weight_prod(gr, i as int, j as int),
        decreases m + 1 - j,
    {
        if i != j {
            w = w.mul(roots[i].sub(roots[j]));
        }
        j = j + 1;
    }
    w.inv()
}

/// Extends the dimension by one: given the values of a polynomial at the
/// first `k` of `n` roots, returns its value at the next root.
///
/// In general the result is the weighted sum of the known values by their
/// Lagrange weights, rescaled by the negated inverse weight of the new
/// point. When only the last slot of the domain is missing, root symmetry
/// collapses the weights and the result is a plain sum of the values against
/// the root table read cyclically from offset `1 + n/2`.
pub fn extend_dimension_one(values: &[Fe], roots: &[Fe]) -> (r: Fe)
    requires
        values@.len() < roots@.len(),
        all_wf(values@),
        all_wf(roots@),
    ensures
        r.wf(),
        values@.len() == roots@.len() - 1 ==> r@ == cyclic_sum(
            residues(values@),
            residues(roots@),
            1 + (roots@.len() as int) / 2,
            values@.len() as int,
        ),
        values@.len() < roots@.len() - 1 ==> r@ == f_mul(
            weight_sum(residues(values@), residues(roots@), values@.len() as int,
                values@.len() as int),
            f_neg(f_inv(lag_weight(residues(roots@), values@.len() as int,
                values@.len() as int))),
        ),
{
    let ghost gv = residues(values@);
    let ghost gr = residues(roots@);
    let k = values.len();
    let n = roots.len();
    if k == n - 1 {
        let ghost off = 1 + (n as int) / 2;
        let mut y = Fe::zero();
        let mut idx: usize = (1 + n / 2) % n;
        let mut i: usize = 0;
        proof {
            lemma_mod_division_less_than_divisor(1 + (n as int) / 2, n as int);
        }
        while i < k
            invariant
                i <= k,
                k == values@.len(),
                n == roots@.len(),
                k == n - 1,
                gv == residues(values@),
                gr == residues(roots@),
                off == 1 + (n as int) / 2,
                all_wf(values@),
                all_wf(roots@),
                y.wf(),
                idx < n,
                idx as int == (off + i) % (n as int),
                y@ == cyclic_sum(gv, gr, off, i as int),
            decreases k - i,
        {
            y = y.add(values[i].mul(roots[idx]));
            proof {
                lemma_add_mod_noop(off + i, 1, n as int);
                lemma_small_mod(1nat, n as nat);
                if idx + 1 == n {
                    lemma_mod_self_0(n as int);
                    lemma_small_mod(0nat, n as nat);
                } else {
                    lemma_small_mod((idx + 1) as nat, n as nat);
                }
            }
            idx = if idx + 1 == n {
                0
            } else {
                idx + 1
            };
            i = i + 1;
        }
        y
    } else {
        let mut y = Fe::zero();
        let mut i: usize = 0;
        while i < k
            invariant
                i <= k,
                k == values@.len(),
                n == roots@.len(),
                k < n,
                gv == residues(values@),
                gr == residues(roots@),
                all_wf(values@),
                all_wf(roots@),
                y.wf(),
                y@ == weight_sum(gv, gr, k as int, i as int),
            decreases k - i,
        {
            y = y.add(values[i].mul(term_w(k, i, roots)));
            i = i + 1;
        }
        let w = term_w(k, k, roots);
        y.mul(w.inv().neg())
    }
}


/// `i` capped at `len`: how many samples of a length-`len` polynomial have
/// entered the recurrence after `i` shared steps.
pub open spec fn capped(len: int, i: int) -> int {
    if i <= len {
        i
    } else {
        len
    }
}

/// Evaluates every polynomial of the batch at the shared point `x`.
///
/// The shared running product and point difference advance once per root;
/// each polynomial's accumulator takes one multiply per step and one
/// multiply-and-add while it still has a sample at the current index. Each
/// entry of the result equals what the single-point evaluator yields for
/// that polynomial against the same root table and point.
pub fn poly_eval_rhizomes_batched(polynomials: &[Vec<Fe>], roots: &[Fe], x: Fe) -> (r: Vec<Fe>)
    requires
        1 <= roots@.len(),
        is_pow2(roots@.len() as nat),
        all_wf(roots@),
        x.wf(),
        forall|j: int|
            0 <= j < polynomials@.len() ==> 1 <= (#[trigger] polynomials@[j])@.len()
                <= roots@.len(),
        forall|j: int| 0 <= j < polynomials@.len() ==> all_wf((#[trigger] polynomials@[j])@),
    ensures
        r@.len() == polynomials@.len(),
        all_wf(r@),
        forall|j: int|
            0 <= j < polynomials@.len() ==> (#[trigger] r@[j])@ == rhizome_eval(
                residues(polynomials@[j]@),
                residues(roots@),
                x@,
            ),
{
    let ghost gr = residues(roots@);
    let np = polynomials.len();
    let nr = roots.len();
    let mut u: Vec<Fe> = Vec::new();
    let mut j: usize = 0;
    proof {
        lemma_small_mod(1nat, fp() as nat);
    }
    while j < np
        invariant
            j <= np,
            np == polynomials@.len(),
            gr == residues(roots@),
            forall|t: int|
                0 <= t < np ==> 1 <= (#[trigger] polynomials@[t])@.len() <= roots@.len(),
            forall|t: int| 0 <= t < np ==> all_wf((#[trigger] polynomials@[t])@),
            u@.len() == j,
            all_wf(u@),
            forall|t: int|
                0 <= t < j ==> (#[trigger] u@[t])@ == rh_sum(
                    residues(polynomials@[t]@),
                    gr,
                    x@,
                    1,
                    1,
                ),
        decreases np - j,
    {
        let first = polynomials[j][0];
        proof {
            let gp = residues(polynomials@[j as int]@);
            assert(diff_prod(gr, x@, 0, 0) == 1);
            assert(diff_prod(gr, x@, 1, 0) == 1);
            assert(rh_sum(gp, gr, x@, 0, 1) == 0);
            lemma_small_mod(first@ as nat, fp() as nat);
            assert(f_mul(1int, 1) == 1);
            assert(rh_term(gp, gr, x@, 0, 1) == f_mul(gp[0], f_mul(1int, 1)));
            assert(f_mul(gp[0], 1) == gp[0]);
            assert(f_add(0, gp[0]) == gp[0]);
        }
        u.push(first);
        j = j + 1;
    }
    let mut l = Fe::one();
    let mut d = roots[0].sub(x);
    let mut i: usize = 1;
    while i < nr
        invariant
            1 <= i <= nr,
            np == polynomials@.len(),
            nr == roots@.len(),
            gr == residues(roots@),
            all_wf(roots@),
            x.wf(),
            forall|t: int|
                0 <= t < np ==> 1 <= (#[trigger] polynomials@[t])@.len() <= roots@.len(),
            forall|t: int| 0 <= t < np ==> all_wf((#[trigger] polynomials@[t])@),
            u@.len() == np,
            all_wf(u@),
            l.wf(),
            d.wf(),
            l@ == diff_prod(gr, x@, i - 1, i - 1),
            d@ == f_sub(gr[i - 1], x@),
            forall|t: int|
                0 <= t < np ==> (#[trigger] u@[t])@ == rh_sum(
                    residues(polynomials@[t]@),
                    gr,
                    x@,
                    capped(polynomials@[t]@.len() as int, i as int),
                    i as int,
                ),
        decreases nr - i,
    {
        proof {
            lemma_diff_prod_skip_high(gr, x@, i - 1, i - 1, i as int);
            assert(diff_prod(gr, x@, i as int, i as int) == f_mul(
                diff_prod(gr, x@, i - 1, i as int),
                f_sub(gr[i - 1], x@),
            ));
        }
        l = l.mul(d);
        d = roots[i].sub(x);
        let t = l.mul(roots[i]);
        let mut j: usize = 0;
        while j < np
            invariant
                j <= np,
                1 <= i < nr,
                np == polynomials@.len(),
                nr == roots@.len(),
                gr == residues(roots@),
                all_wf(roots@),
                x.wf(),
                forall|s: int|
                    0 <= s < np ==> 1 <= (#[trigger] polynomials@[s])@.len() <= roots@.len(),
                forall|s: int| 0 <= s < np ==> all_wf((#[trigger] polynomials@[s])@),
                u@.len() == np,
                all_wf(u@),
                l.wf(),
                d.wf(),
                t.wf(),
                l@ == diff_prod(gr, x@, i as int, i as int),
                d@ == f_sub(gr[i as int], x@),
                t@ == f_mul(l@, gr[i as int]),
                forall|s: int|
                    j <= s < np ==> (#[trigger] u@[s])@ == rh_sum(
                        residues(polynomials@[s]@),
                        gr,
                        x@,
                        capped(polynomials@[s]@.len() as int, i as int),
                        i as int,
                    ),
                forall|s: int|
                    0 <= s < j ==> (#[trigger] u@[s])@ == rh_sum(
                        residues(polynomials@[s]@),
                        gr,
                        x@,
                        capped(polynomials@[s]@.len() as int, i + 1),
                        i + 1,
                    ),
            decreases np - j,
        {
            let ghost gp = residues(polynomials@[j as int]@);
            let ghost plen = polynomials@[j as int]@.len() as int;
            let mut uj = u[j].mul(d);
            proof {
                lemma_rh_sum_scale(gp, gr, x@, capped(plen, i as int), i as int);
            }
            if i < polynomials[j].len() {
                proof {
                    lemma_diff_prod_skip_high(gr, x@, i as int, i as int, i + 1);
                    assert(diff_prod(gr, x@, i + 1, i as int) == diff_prod(
                        gr,
                        x@,
                        i as int,
                        i as int,
                    ));
                    lemma_fmul_abc(l@, gr[i as int], gp[i as int]);
                    assert(f_mul(f_mul(l@, gr[i as int]), gp[i as int]) == f_mul(
                        gp[i as int],
                        f_mul(gr[i as int], diff_prod(gr, x@, i + 1, i as int)),
                    ));
                    assert(rh_sum(gp, gr, x@, i + 1, i + 1) == f_add(
                        rh_sum(gp, gr, x@, i as int, i + 1),
                        rh_term(gp, gr, x@, i as int, i + 1),
                    ));
                }
                uj = uj.add(t.mul(polynomials[j][i]));
            }
            u[j] = uj;
            j = j + 1;
        }
        i = i + 1;
    }
    if nr > 1 {
        let scale = inv_pow2(nr).neg();
        let ghost u0 = u@;
        let mut j: usize = 0;
        while j < np
            invariant
                j <= np,
                u@.len() == np,
                u0.len() == np,
                all_wf(u@),
                scale.wf(),
                scale@ == f_neg(f_pow(HALF as int, lg(nr as nat))),
                forall|s: int| j <= s < np ==> u@[s] == u0[s],
                forall|s: int|
                    0 <= s < j ==> (#[trigger] u@[s])@ == f_mul(u0[s]@, scale@),
            decreases np - j,
        {
            u[j] = u[j].mul(scale);
            j = j + 1;
        }
        proof {
            assert forall|s: int| 0 <= s < np implies (#[trigger] u@[s])@ == rhizome_eval(
                residues(polynomials@[s]@),
                gr,
                x@,
            ) by {
                assert(u0[s]@ == rh_sum(
                    residues(polynomials@[s]@),
                    gr,
                    x@,
                    capped(polynomials@[s]@.len() as int, nr as int),
                    nr as int,
                ));
            };
        }
        u
    } else {
        u
    }
}


/// Evaluates one polynomial at every point of `output_x`, overwriting each
/// point with its evaluation result.
///
/// The pointwise products `poly[i] * roots[i]` are precomputed once; each
/// point then reruns the barycentric recurrence with one multiplication
/// saved per step. Every output entry equals what the single-point
/// evaluator yields for the point it replaces.
pub fn poly_multieval_rhizomes_batched(output_x: &mut Vec<Fe>, poly: &[Fe], roots: &[Fe])
    requires
        1 <= poly@.len() <= roots@.len(),
        is_pow2(roots@.len() as nat),
        all_wf(poly@),
        all_wf(roots@),
        all_wf(old(output_x)@),
    ensures
        final(output_x)@.len() == old(output_x)@.len(),
        all_wf(final(output_x)@),
        forall|j: int|
            0 <= j < old(output_x)@.len() ==> (#[trigger] final(output_x)@[j])@
                == rhizome_eval(residues(poly@), residues(roots@), old(output_x)@[j]@),
{
    let ghost gp = residues(poly@);
    let ghost gr = residues(roots@);
    let ghost orig = output_x@;
    let n = poly.len();
    let nr = roots.len();
    let mut z: Vec<Fe> = Vec::new();
    let mut i: usize = 0;
    while i < n
        invariant
            i <= n,
            n == poly@.len(),
            n <= roots@.len(),
            gp == residues(poly@),
            gr == residues(roots@),
            all_wf(poly@),
            all_wf(roots@),
            z@.len() == i,
            all_wf(z@),
            forall|t: int| 0 <= t < i ==> (#[trigger] z@[t])@ == f_mul(gp[t], gr[t]),
        decreases n - i,
    {
        z.push(poly[i].mul(roots[i]));
        i = i + 1;
    }
    let scale = inv_pow2(nr).neg();
    let np = output_x.len();
    let mut j: usize = 0;
    while j < np
        invariant
            j <= np,
            np == output_x@.len(),
            output_x@.len() == orig.len(),
            1 <= n <= nr,
            n == poly@.len(),
            nr == roots@.len(),
            gp == residues(poly@),
            gr == residues(roots@),
            all_wf(poly@),
            all_wf(roots@),
            all_wf(orig),
            z@.len() == n,
            all_wf(z@),
            forall|t: int| 0 <= t < n ==> (#[trigger] z@[t])@ == f_mul(gp[t], gr[t]),
            scale.wf(),
            scale@ == f_neg(f_pow(HALF as int, lg(nr as nat))),
            all_wf(output_x@),
            forall|t: int| j <= t < np ==> output_x@[t] == orig[t],
            forall|t: int|
                0 <= t < j ==> (#[trigger] output_x@[t])@ == rhizome_eval(gp, gr, orig[t]@),
        decreases np - j,
    {
        let xj = output_x[j];
        let ghost gx = xj@;
        let mut l = Fe::one();
        let mut u = poly[0];
        let mut d = roots[0].sub(xj);
        let mut i: usize = 1;
        proof {
            assert(diff_prod(gr, gx, 0, 0) == 1);
            assert(diff_prod(gr, gx, 1, 0) == 1);
            assert(rh_sum(gp, gr, gx, 0, 1) == 0);
            lemma_small_mod(1nat, fp() as nat);
            lemma_small_mod(u@ as nat, fp() as nat);
            assert(gp[0] == u@);
            assert(f_mul(1int, 1) == 1);
            assert(rh_term(gp, gr, gx, 0, 1) == f_mul(gp[0], f_mul(1int, 1)));
            assert(f_mul(gp[0], 1) == gp[0]);
            assert(rh_sum(gp, gr, gx, 1, 1) == f_add(0, gp[0]));
            assert(f_add(0, gp[0]) == gp[0]);
        }
        while i < n
            invariant
                1 <= i <= n,
                xj.wf(),
                gx == xj@,
                1 <= n <= nr,
                n == poly@.len(),
                nr == roots@.len(),
                gp == residues(poly@),
                gr == residues(roots@),
                all_wf(poly@),
                all_wf(roots@),
                z@.len() == n,
                all_wf(z@),
                forall|t: int| 0 <= t < n ==> (#[trigger] z@[t])@ == f_mul(gp[t], gr[t]),
                l.wf(),
                u.wf(),
                d.wf(),
                l@ == diff_prod(gr, gx, i - 1, i - 1),
                d@ == f_sub(gr[i - 1], gx),
                u@ == rh_sum(gp, gr, gx, i as int, i as int),
            decreases n - i,
        {
            proof {
                lemma_diff_prod_skip_high(gr, gx, i - 1, i - 1, i as int);
                assert(diff_prod(gr, gx, i as int, i as int) == f_mul(
                    diff_prod(gr, gx, i - 1, i as int),
                    f_sub(gr[i - 1], gx),
                ));
            }
            l = l.mul(d);
            d = roots[i].sub(xj);
            let t = l.mul(z[i]);
            proof {
                lemma_rh_sum_scale(gp, gr, gx, i as int, i as int);
                lemma_diff_prod_skip_high(gr, gx, i as int, i as int, i + 1);
                assert(diff_prod(gr, gx, i + 1, i as int) == diff_prod(gr, gx, i as int, i as int));
                lemma_fmul_abc(l@, gp[i as int], gr[i as int]);
                assert(f_mul(l@, f_mul(gp[i as int], gr[i as int])) == f_mul(
                    gp[i as int],
                    f_mul(gr[i as int], l@),
                ));
                assert(rh_term(gp, gr, gx, i as int, i + 1) == f_mul(
                    gp[i as int],
                    f_mul(gr[i as int], diff_prod(gr, gx, i + 1, i as int)),
                ));
            }
            u = u.mul(d).add(t);
            i = i + 1;
        }
        while i < nr
            invariant
                n <= i <= nr,
                xj.wf(),
                gx == xj@,
                n == poly@.len(),
                nr == roots@.len(),
                gp == residues(poly@),
                gr == residues(roots@),
                all_wf(poly@),
                all_wf(roots@),
                u.wf(),
                u@ == rh_sum(gp, gr, gx, n as int, i as int),
            decreases nr - i,
        {
            proof {
                lemma_rh_sum_scale(gp, gr, gx, n as int, i as int);
            }
            u = u.mul(roots[i].sub(xj));
            i = i + 1;
        }
        if nr > 1 {
            u = u.mul(scale);
        }
        output_x[j] = u;
        j = j + 1;
    }
}


/// The element a perfect shuffle of the range `[lo, lo + len)` places at
/// position `p`: even offsets read from the first half, odd offsets from
/// the second half.
pub open spec fn shuffled(s: Seq<Fe>, lo: int, len: int, p: int) -> Fe {
    if (p - lo) % 2 == 0 {
        s[lo + (p - lo) / 2]
    } else {
        s[lo + len / 2 + (p - lo) / 2]
    }
}

/// Interleaves the two halves of `buf[lo..lo + len]` in place: the range
/// `[a0, .., a(m-1), b0, .., b(m-1)]` becomes `[a0, b0, a1, b1, ..]`.
///
/// The permutation swaps the two inner quarter blocks, then recurses into
/// each half; ranges shorter than four elements are already interleaved.
/// The element multiset of the buffer is unchanged: the shuffle is a pure
/// permutation.
pub fn perfect_shuffle(buf: &mut Vec<Fe>, lo: usize, len: usize)
    requires
        lo + len <= old(buf)@.len(),
        len == 0 || is_pow2(len as nat),
    ensures
        final(buf)@.len() == old(buf)@.len(),
        forall|p: int|
            0 <= p < old(buf)@.len() && !(lo <= p < lo + len) ==> final(buf)@[p] == old(
                buf,
            )@[p],
        forall|p: int|
            lo <= p < lo + len ==> (#[trigger] final(buf)@[p]) == shuffled(
                old(buf)@,
                lo as int,
                len as int,
                p,
            ),
        final(buf)@.to_multiset() == old(buf)@.to_multiset(),
    decreases len,
{
    let total = buf.len();
    if len >= 4 {
        proof {
            lemma_pow2_halves(len as nat);
            lemma_pow2_halves((len / 2) as nat);
        }
        let q = len / 4;
        let half = len / 2;
        let ghost pre = buf@;
        let mut t: usize = 0;
        while t < q
            invariant
                t <= q,
                q == len / 4,
                half == len / 2,
                len % 2 == 0,
                half % 2 == 0,
                q == half / 2,
                4 <= len,
                lo + len <= total,
                total == buf@.len(),
                pre.len() == total,
                forall|p: int|
                    0 <= p < pre.len() && !(lo + q <= p < lo + q + t) && !(lo + half <= p < lo
                        + half + t) ==> buf@[p] == pre[p],
                forall|p: int|
                    lo + q <= p < lo + q + t ==> (#[trigger] buf@[p]) == pre[p + (half - q)],
                forall|p: int|
                    lo + half <= p < lo + half + t ==> (#[trigger] buf@[p]) == pre[p - (half
                        - q)],
                buf@.to_multiset() == pre.to_multiset(),
            decreases q - t,
        {
            let ghost s0 = buf@;
            let a = buf[lo + q + t];
            let b = buf[lo + half + t];
            buf[lo + q + t] = b;
            buf[lo + half + t] = a;
            proof {
                broadcast use vstd::seq_lib::group_to_multiset_ensures;
                broadcast use vstd::multiset::group_multiset_axioms;

                let i1 = (lo + q + t) as int;
                let i2 = (lo + half + t) as int;
                vstd::seq_lib::to_multiset_update(s0, i1, b);
                vstd::seq_lib::to_multiset_update(s0.update(i1, b), i2, a);
                assert(s0.contains(a));
                assert(s0.to_multiset().count(a) > 0);
                assert(s0.update(i1, b)[i2] == s0[i2]);
                assert(buf@.to_multiset() =~= s0.to_multiset());
            }
            t = t + 1;
        }
        let ghost mid = buf@;
        perfect_shuffle(buf, lo, half);
        let ghost afterl = buf@;
        perfect_shuffle(buf, lo + half, half);
        proof {
            let l = lo as int;
            let h = half as int;
            let qq = q as int;
            assert forall|p: int| lo <= p < lo + len implies (#[trigger] buf@[p]) == shuffled(
                pre,
                lo as int,
                len as int,
                p,
            ) by {
                if p < l + h {
                    assert(buf@[p] == afterl[p]);
                    assert(afterl[p] == shuffled(mid, l, h, p));
                    if (p - l) % 2 == 0 {
                        let idx = l + (p - l) / 2;
                        assert(0 <= (p - l) / 2 < qq);
                        assert(mid[idx] == pre[idx]);
                    } else {
                        let idx = l + qq + (p - l) / 2;
                        assert(0 <= (p - l) / 2 < qq);
                        assert(mid[idx] == pre[idx + (h - qq)]);
                        assert(idx + (h - qq) == l + h + (p - l) / 2);
                    }
                } else {
                    let o = p - l - h;
                    assert(buf@[p] == shuffled(afterl, l + h, h, p));
                    vstd::arithmetic::div_mod::lemma_mod_multiples_vanish(qq, o, 2);
                    assert((p - l) % 2 == o % 2);
                    vstd::arithmetic::div_mod::lemma_hoist_over_denominator(o, qq, 2);
                    assert((p - l) / 2 == qq + o / 2);
                    if o % 2 == 0 {
                        let idx = l + h + o / 2;
                        assert(0 <= o / 2 < qq);
                        assert(afterl[idx] == mid[idx]);
                        assert(mid[idx] == pre[idx - (h - qq)]);
                        assert(idx - (h - qq) == l + qq + o / 2);
                        assert(shuffled(pre, l, len as int, p) == pre[l + (p - l) / 2]);
                    } else {
                        let idx = l + h + qq + o / 2;
                        assert(0 <= o / 2 < qq);
                        assert(afterl[idx] == mid[idx]);
                        assert(mid[idx] == pre[idx]);
                        assert(shuffled(pre, l, len as int, p) == pre[l + h + (p - l) / 2]);
                    }
                }
            };
        }
    } else {
        proof {
            if len == 3 {
                assert(lg(1nat) == 0);
                assert(lg(3nat) == 1);
                lemma2_to64();
                assert(false);
            }
        }
    }
}

/// The coefficients of the interpolant through the first `n` Lagrange
/// values: the forward transform read at the reversed index, scaled by
/// `1/n` -- the finishing form of the inverse transform.
pub open spec fn lag_coeffs(values: Seq<int>, n: int) -> Seq<int> {
    Seq::new(
        n as nat,
        |k: int|
            f_mul(
                crate::ntt::dft_sum(
                    values,
                    root_of_unity(lg(n as nat)),
                    if k == 0 {
                        0
                    } else {
                        n - k
                    },
                    n,
                ),
                f_pow(HALF as int, lg(n as nat)),
            ),
    )
}

/// Doubles the evaluation domain: the first `n` entries of the buffer hold
/// a polynomial's values over the `n`-th roots of unity; afterwards the
/// first `2n` entries hold the same interpolant's values over the `2n`-th
/// roots, in increasing-power order.
///
/// The original values correspond to the even powers of the doubled root
/// and stay as they are; the values at the odd powers are computed by
/// recovering the (scaled) coefficients with an inverse transform and
/// applying the twisted transform, and a perfect shuffle interleaves the
/// two groups into canonical order.
pub fn extend_dimension_double(values: &mut Vec<Fe>, n: usize)
    requires
        2 * n <= old(values)@.len(),
        is_pow2(n as nat),
        lg(n as nat) <= 31,
        all_wf(old(values)@),
    ensures
        final(values)@.len() == old(values)@.len(),
        all_wf(final(values)@),
        forall|p: int|
            2 * n <= p < old(values)@.len() ==> final(values)@[p] == old(values)@[p],
        forall|p: int|
            0 <= p < 2 * n && p % 2 == 0 ==> (#[trigger] final(values)@[p]) == old(
                values,
            )@[p / 2],
        forall|p: int|
            0 <= p < 2 * n && p % 2 == 1 ==> (#[trigger] final(values)@[p])@ == crate::ntt::odd_dft_sum(
                lag_coeffs(residues(old(values)@), n as int),
                root_of_unity((lg(n as nat) + 1) as nat),
                p / 2,
                n as int,
            ),
{
    let total = values.len();
    let ghost orig = values@;
    let ghost gv = residues(orig);
    proof {
        lemma_pow2_pos(lg(n as nat));
    }
    let n_inv = inv_pow2(n);
    let zero = Fe::zero();
    let mut tmp: Vec<Fe> = vec![zero; n];
    proof {
        assert forall|i: int| 0 <= i < tmp@.len() implies (#[trigger] tmp@[i]).wf() by {
            assert(tmp@[i] == zero);
        };
    }
    crate::ntt::ntt(&mut tmp, values.as_slice(), n);
    ntt_inv_finish(&mut tmp, n, n_inv);
    proof {
        let w = root_of_unity(lg(n as nat));
        assert(residues(tmp@) =~= lag_coeffs(gv, n as int)) by {
            assert forall|k: int| 0 <= k < n implies residues(tmp@)[k] == lag_coeffs(
                gv,
                n as int,
            )[k] by {
                if k == 0 {
                    assert(tmp@[0]@ == f_mul(crate::ntt::dft_sum(gv, w, 0, n as int), n_inv@));
                } else {
                    assert(tmp@[k]@ == f_mul(
                        crate::ntt::dft_sum(gv, w, n - k, n as int),
                        n_inv@,
                    ));
                }
            };
        };
    }
    ntt_star(values, n, tmp.as_slice(), n);
    let ghost pre = values@;
    proof {
        lemma_pow2_unfold((lg(n as nat) + 1) as nat);
        lemma_lg_pow2((lg(n as nat) + 1) as nat);
        assert(2 * n == pow2((lg(n as nat) + 1) as nat));
        assert(lg((2 * n) as nat) == lg(n as nat) + 1);
        assert(is_pow2((2 * n) as nat));
    }
    perfect_shuffle(values, 0, 2 * n);
    proof {
        let w2 = root_of_unity((lg(n as nat) + 1) as nat);
        let gc = lag_coeffs(gv, n as int);
        assert forall|p: int| 0 <= p < 2 * n && p % 2 == 0 implies (#[trigger] values@[p])
            == orig[p / 2] by {
            assert(values@[p] == shuffled(pre, 0, 2 * n as int, p));
            assert(shuffled(pre, 0, 2 * n as int, p) == pre[p / 2]);
            assert(pre[p / 2] == orig[p / 2]);
        };
        assert forall|p: int| 0 <= p < 2 * n && p % 2 == 1 implies (#[trigger] values@[p])@
            == crate::ntt::odd_dft_sum(gc, w2, p / 2, n as int) by {
            assert(values@[p] == shuffled(pre, 0, 2 * n as int, p));
            assert(shuffled(pre, 0, 2 * n as int, p) == pre[n + p / 2]);
            assert(pre[n + p / 2]@ == crate::ntt::odd_dft_sum(residues(tmp@), w2, p / 2, n as int));
        };
    }
}


/// Each root-table entry is the previous entry multiplied by the primitive
/// root: the doubling construction agrees with a table built by successive
/// multiplication starting from one.
pub proof fn lemma_root_powers_successive(k: nat, i: nat)
    ensures
        f_pow(root_of_unity(k), i + 1) == f_mul(f_pow(root_of_unity(k), i), root_of_unity(k)),
{
    let w = root_of_unity(k);
    lemma_fpow_succ(w, i);
    assert(f_mul(w, f_pow(w, i)) == f_mul(f_pow(w, i), w));
}

/// A single-sample polynomial over a single-root table evaluates to the
/// sample it holds: the result is the same constant at every point.
pub proof fn lemma_constant_poly_eval(poly: Seq<int>, roots: Seq<int>, x: int, y: int)
    requires
        poly.len() == 1,
        roots.len() == 1,
        0 <= poly[0] < fp(),
    ensures
        rhizome_eval(poly, roots, x) == poly[0],
        rhizome_eval(poly, roots, x) == rhizome_eval(poly, roots, y),
{
    lemma_small_mod(1nat, fp() as nat);
    lemma_small_mod(poly[0] as nat, fp() as nat);
    assert(diff_prod(roots, x, 0, 0) == 1);
    assert(diff_prod(roots, x, 1, 0) == 1);
    assert(rh_sum(poly, roots, x, 0, 1) == 0);
    assert(f_mul(1int, 1) == 1);
    assert(rh_term(poly, roots, x, 0, 1) == f_mul(poly[0], f_mul(1int, 1)));
    assert(f_mul(poly[0], 1) == poly[0]);
    assert(rh_sum(poly, roots, x, 1, 1) == f_add(0, poly[0]));
    assert(f_add(0, poly[0]) == poly[0]);
    assert(diff_prod(roots, y, 0, 0) == 1);
    assert(diff_prod(roots, y, 1, 0) == 1);
    assert(rh_sum(poly, roots, y, 0, 1) == 0);
    assert(rh_term(poly, roots, y, 0, 1) == f_mul(poly[0], f_mul(1int, 1)));
    assert(rh_sum(poly, roots, y, 1, 1) == f_add(0, poly[0]));
}


/// The root-table invariants: the table starts at one, the upper half is
/// the negated lower half, and the even positions of a table are the table
/// of half the size.
pub proof fn lemma_root_table_invariants(n: nat, j: nat)
    requires
        is_pow2(n),
        lg(n) <= 32,
        n >= 2,
        j < n / 2,
    ensures
        f_pow(root_of_unity(lg(n)), 0) == 1,
        f_pow(root_of_unity(lg(n)), j + n / 2) == f_neg(f_pow(root_of_unity(lg(n)), j)),
        f_pow(root_of_unity(lg(n)), 2 * j) == f_pow(root_of_unity(lg(n / 2)), j),
{
    let k = lg(n);
    let w = root_of_unity(k);
    lemma_pow2_halves(n);
    lemma_pow0(w);
    lemma_small_mod(1nat, fp() as nat);
    lemma_root_half_order(k);
    assert(n / 2 == pow2((k - 1) as nat));
    lemma_fpow_add(w, j, n / 2);
    lemma_fmul_neg_one(f_pow(w, j));
    assert(f_mul(f_pow(w, j), fp() - 1) == f_neg(f_pow(w, j)));
    lemma_root_square(k);
    lemma_fpow_of_square(w, j);
}

} // verus!

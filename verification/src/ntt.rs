//! The forward, twisted, and inverse-finishing number-theoretic transforms.
//!
//! These are the transform capabilities the dimension extender composes: a
//! forward transform over the `2^k`-th roots of unity, the finishing step of
//! the inverse transform (index reversal plus `1/n` normalization), and a
//! twisted transform that evaluates coefficients at the odd powers of the
//! root of the doubled order. Each contract states the defining sum of the
//! discrete transform pointwise.

use crate::field::{
    f_add, f_mul, f_pow, fp, lemma_fpow_add, Fe,
};
use crate::lagrange::{all_wf, is_pow2, lg, log2_exact, residues};
use vstd::arithmetic::div_mod::lemma_small_mod;
use vstd::arithmetic::power::lemma_pow0;
use vstd::arithmetic::power2::{lemma2_to64, lemma_pow2_strictly_increases, pow2};
use vstd::prelude::*;

verus! {

/// The discrete transform sum `sum_{j < count} input[j] * w^(j*k)`.
pub open spec fn dft_sum(input: Seq<int>, w: int, k: int, count: int) -> int
    decreases count,
{
    if count <= 0 {
        0
    } else {
        f_add(
            dft_sum(input, w, k, count - 1),
            f_mul(input[count - 1], f_pow(w, ((count - 1) * k) as nat)),
        )
    }
}

/// The twisted transform sum `sum_{j < count} input[j] * w2^((2k + 1) * j)`:
/// the polynomial with the given coefficients evaluated at the `(2k + 1)`-th
/// power of `w2`.
pub open spec fn odd_dft_sum(input: Seq<int>, w2: int, k: int, count: int) -> int
    decreases count,
{
    if count <= 0 {
        0
    } else {
        f_add(
            odd_dft_sum(input, w2, k, count - 1),
            f_mul(input[count - 1], f_pow(w2, ((2 * k + 1) * (count - 1)) as nat)),
        )
    }
}

/// The forward transform: entry `k` of the first `size` outputs becomes the
/// transform sum of the first `size` inputs at the `k`-th power of the
/// primitive root of order `size`.
pub fn ntt(output: &mut Vec<Fe>, input: &[Fe], size: usize)
    requires
        is_pow2(size as nat),
        lg(size as nat) <= 32,
        size <= input@.len(),
        size <= old(output)@.len(),
        all_wf(input@),
        all_wf(old(output)@),
    ensures
        final(output)@.len() == old(output)@.len(),
        all_wf(final(output)@),
        forall|p: int| size <= p < old(output)@.len() ==> final(output)@[p] == old(output)@[p],
        forall|k: int|
            0 <= k < size ==> (#[trigger] final(output)@[k])@ == dft_sum(
                residues(input@),
                crate::field::root_of_unity(lg(size as nat)),
                k,
                size as int,
            ),
{
    let ghost gi = residues(input@);
    let ghost orig = output@;
    let klog = log2_exact(size);
    let w = match Fe::root(klog) {
        Some(w) => w,
        None => vstd::pervasive::unreached(),
    };
    let mut k: usize = 0;
    while k < size
        invariant
            k <= size,
            size <= input@.len(),
            size <= orig.len(),
            output@.len() == orig.len(),
            gi == residues(input@),
            all_wf(input@),
            all_wf(output@),
            w.wf(),
            w@ == crate::field::root_of_unity(lg(size as nat)),
            forall|p: int| size <= p < orig.len() ==> output@[p] == orig[p],
            forall|t: int|
                0 <= t < k ==> (#[trigger] output@[t])@ == dft_sum(gi, w@, t, size as int),
        decreases size - k,
    {
        let wk = w.pow(k as u64);
        let mut acc = Fe::zero();
        let mut cur = Fe::one();
        let mut j: usize = 0;
        proof {
            lemma_pow0(w@);
            lemma_small_mod(1nat, fp() as nat);
        }
        while j < size
            invariant
                j <= size,
                k < size,
                size <= input@.len(),
                gi == residues(input@),
                all_wf(input@),
                w.wf(),
                wk.wf(),
                wk@ == f_pow(w@, k as nat),
                acc.wf(),
                cur.wf(),
                cur@ == f_pow(w@, (j * k) as nat),
                acc@ == dft_sum(gi, w@, k as int, j as int),
            decreases size - j,
        {
            proof {
                lemma_fpow_add(w@, (j * k) as nat, k as nat);
                assert((j + 1) * k == j * k + k) by (nonlinear_arith);
            }
            acc = acc.add(input[j].mul(cur));
            cur = cur.mul(wk);
            j = j + 1;
        }
        output[k] = acc;
        k = k + 1;
    }
}

/// The finishing step of the inverse transform: reverses the entries above
/// index zero of the first `size` values and multiplies each of the first
/// `size` values by `size_inv`, which the caller supplies as `1/size`.
pub fn ntt_inv_finish(values: &mut Vec<Fe>, size: usize, size_inv: Fe)
    requires
        1 <= size <= old(values)@.len(),
        all_wf(old(values)@),
        size_inv.wf(),
    ensures
        final(values)@.len() == old(values)@.len(),
        all_wf(final(values)@),
        forall|p: int| size <= p < old(values)@.len() ==> final(values)@[p] == old(values)@[p],
        final(values)@[0]@ == f_mul(old(values)@[0]@, size_inv@),
        forall|k: int|
            1 <= k < size ==> (#[trigger] final(values)@[k])@ == f_mul(
                old(values)@[size - k]@,
                size_inv@,
            ),
{
    let ghost orig = values@;
    let total = values.len();
    let mut i: usize = 1;
    let mut j: usize = size - 1;
    while i < j
        invariant
            1 <= i,
            i + j == size,
            j <= size - 1,
            size <= total,
            total == values@.len(),
            orig.len() == total,
            all_wf(values@),
            values@[0] == orig[0],
            forall|p: int| i <= p <= j ==> values@[p] == orig[p],
            forall|p: int| 1 <= p < i ==> (#[trigger] values@[p]) == orig[size - p],
            forall|p: int| j < p < size ==> (#[trigger] values@[p]) == orig[size - p],
            forall|p: int| size <= p < total ==> values@[p] == orig[p],
        decreases j,
    {
        let a = values[i];
        let b = values[j];
        values[i] = b;
        values[j] = a;
        i = i + 1;
        j = j - 1;
    }
    proof {
        assert forall|p: int| 1 <= p < size implies (#[trigger] values@[p]) == orig[size - p] by {
            if i <= p <= j {
                assert(p == i && p == j);
            }
        };
    }
    let ghost rev = values@;
    let mut k: usize = 0;
    while k < size
        invariant
            k <= size,
            size <= total,
            total == values@.len(),
            rev.len() == total,
            size_inv.wf(),
            all_wf(rev),
            all_wf(values@),
            forall|p: int| k <= p < total ==> values@[p] == rev[p],
            forall|p: int| 0 <= p < k ==> (#[trigger] values@[p])@ == f_mul(rev[p]@, size_inv@),
        decreases size - k,
    {
        values[k] = values[k].mul(size_inv);
        k = k + 1;
    }
}

/// The twisted transform: entry `offset + k` of the output becomes the
/// polynomial with the first `size` input coefficients evaluated at the
/// `(2k + 1)`-th power of the primitive root of order `2 * size` -- the odd
/// powers, which are the new points of a doubled evaluation domain.
pub fn ntt_star(output: &mut Vec<Fe>, offset: usize, input: &[Fe], size: usize)
    requires
        is_pow2(size as nat),
        lg(size as nat) <= 31,
        size <= input@.len(),
        offset + size <= old(output)@.len(),
        all_wf(input@),
        all_wf(old(output)@),
    ensures
        final(output)@.len() == old(output)@.len(),
        all_wf(final(output)@),
        forall|p: int|
            0 <= p < old(output)@.len() && !(offset <= p < offset + size) ==> final(output)@[p]
                == old(output)@[p],
        forall|k: int|
            0 <= k < size ==> (#[trigger] final(output)@[offset + k])@ == odd_dft_sum(
                residues(input@),
                crate::field::root_of_unity((lg(size as nat) + 1) as nat),
                k,
                size as int,
            ),
{
    let ghost gi = residues(input@);
    let ghost orig = output@;
    let total = output.len();
    let klog = log2_exact(size);
    let w2 = match Fe::root(klog + 1) {
        Some(w) => w,
        None => vstd::pervasive::unreached(),
    };
    proof {
        lemma2_to64();
        if lg(size as nat) < 31 {
            lemma_pow2_strictly_increases(lg(size as nat), 31);
        }
        assert(size <= 2147483648);
    }
    let mut k: usize = 0;
    while k < size
        invariant
            k <= size,
            size <= 2147483648,
            size <= input@.len(),
            offset + size <= total,
            total == orig.len(),
            output@.len() == orig.len(),
            gi == residues(input@),
            all_wf(input@),
            all_wf(output@),
            w2.wf(),
            w2@ == crate::field::root_of_unity((lg(size as nat) + 1) as nat),
            forall|p: int|
                0 <= p < orig.len() && !(offset <= p < offset + k) ==> output@[p] == orig[p],
            forall|t: int|
                0 <= t < k ==> (#[trigger] output@[offset + t])@ == odd_dft_sum(
                    gi,
                    w2@,
                    t,
                    size as int,
                ),
        decreases size - k,
    {
        let wk = w2.pow((2 * k + 1) as u64);
        let mut acc = Fe::zero();
        let mut cur = Fe::one();
        let mut j: usize = 0;
        proof {
            lemma_pow0(w2@);
            lemma_small_mod(1nat, fp() as nat);
        }
        while j < size
            invariant
                j <= size,
                k < size,
                size <= 2147483648,
                size <= input@.len(),
                gi == residues(input@),
                all_wf(input@),
                w2.wf(),
                wk.wf(),
                wk@ == f_pow(w2@, (2 * k + 1) as nat),
                acc.wf(),
                cur.wf(),
                cur@ == f_pow(w2@, ((2 * k + 1) * j) as nat),
                acc@ == odd_dft_sum(gi, w2@, k as int, j as int),
            decreases size - j,
        {
            proof {
                lemma_fpow_add(w2@, ((2 * k + 1) * j) as nat, (2 * k + 1) as nat);
                assert((2 * k + 1) * (j + 1) == (2 * k + 1) * j + (2 * k + 1))
                    by (nonlinear_arith);
            }
            acc = acc.add(input[j].mul(cur));
            cur = cur.mul(wk);
            j = j + 1;
        }
        output[offset + k] = acc;
        k = k + 1;
    }
}

} // verus!

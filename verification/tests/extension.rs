//! Tests for the dimension extenders, the shuffle, and the numeric helpers.

use rhizomes::field::{Fe, HALF, MODULUS};
use rhizomes::{
    extend_dimension_double, extend_dimension_one, inv_pow2, nth_root_powers, perfect_shuffle,
    poly_eval_rhizomes, poly_multieval_rhizomes_batched,
};

fn rng_next(state: &mut u64) -> u64 {
    let mut x = *state;
    x ^= x << 13;
    x ^= x >> 7;
    x ^= x << 17;
    *state = x;
    x
}

fn random_vector(n: usize, state: &mut u64) -> Vec<Fe> {
    (0..n).map(|_| Fe::new(rng_next(state))).collect()
}

/// Evaluates a polynomial given in the monomial basis with Horner's method.
fn poly_eval(poly: &[Fe], x: Fe) -> Fe {
    let mut r = Fe::zero();
    for c in poly.iter().rev() {
        r = r.mul(x).add(*c);
    }
    r
}

#[test]
fn test_extend_dimension_double_preserves_evaluation() {
    let mut seed: u64 = 0xdecade5;
    for log_n in 0..6 {
        let n: usize = 1 << log_n;
        let values = random_vector(n, &mut seed);
        let x = random_vector(1, &mut seed)[0];

        let roots_n = nth_root_powers(n);
        let before = poly_eval_rhizomes(&values, &roots_n, &x);

        let mut buf = [values.clone(), vec![Fe::zero(); n]].concat();
        extend_dimension_double(&mut buf, n);

        let roots_2n = nth_root_powers(2 * n);
        let after = poly_eval_rhizomes(&buf[..2 * n], &roots_2n, &x);
        assert_eq!(before, after, "n: {n}");
    }
}

#[test]
fn test_extend_dimension_one_general() {
    // values of 5 + 3 t at the first two of four roots; the interpolant's
    // value at the third root must come back.
    let coeffs = [Fe::new(5), Fe::new(3)];
    let roots = nth_root_powers(4);
    let values = vec![poly_eval(&coeffs, roots[0]), poly_eval(&coeffs, roots[1])];
    let got = extend_dimension_one(&values, &roots);
    assert_eq!(got, poly_eval(&coeffs, roots[2]));
}

#[test]
fn test_extend_dimension_one_last_slot() {
    // degree-2 interpolant through the first three of four roots.
    let coeffs = [Fe::new(7), Fe::new(11), Fe::new(13)];
    let roots = nth_root_powers(4);
    let values = vec![
        poly_eval(&coeffs, roots[0]),
        poly_eval(&coeffs, roots[1]),
        poly_eval(&coeffs, roots[2]),
    ];
    let got = extend_dimension_one(&values, &roots);
    assert_eq!(got, poly_eval(&coeffs, roots[3]));
}

#[test]
fn test_poly_multieval_matches_single() {
    let mut seed: u64 = 0xacc01ade;
    let n: usize = 8;
    let poly = random_vector(n, &mut seed);
    let roots = nth_root_powers(16);
    let points = random_vector(5, &mut seed);

    let mut output = points.clone();
    poly_multieval_rhizomes_batched(&mut output, &poly, &roots);
    for (out, point) in output.iter().zip(points.iter()) {
        assert_eq!(*out, poly_eval_rhizomes(&poly, &roots, point));
    }
}

#[test]
fn test_perfect_shuffle_interleaves() {
    let a0 = Fe::new(1);
    let a1 = Fe::new(2);
    let b0 = Fe::new(3);
    let b1 = Fe::new(4);
    let mut v = vec![a0, a1, b0, b1];
    perfect_shuffle(&mut v, 0, 4);
    assert_eq!(v, vec![a0, b0, a1, b1]);

    // lengths below four stay as they are
    let mut w = vec![a0, a1];
    perfect_shuffle(&mut w, 0, 2);
    assert_eq!(w, vec![a0, a1]);
}

#[test]
fn test_perfect_shuffle_is_permutation() {
    let mut seed: u64 = 0xb1ec7ed;
    let v = random_vector(32, &mut seed);
    let mut shuffled = v.clone();
    perfect_shuffle(&mut shuffled, 0, 32);
    let mut before: Vec<u64> = v.iter().map(|f| f.as_u64()).collect();
    let mut after: Vec<u64> = shuffled.iter().map(|f| f.as_u64()).collect();
    before.sort_unstable();
    after.sort_unstable();
    assert_eq!(before, after);
    assert_ne!(v, shuffled);
}

#[test]
fn test_inv_pow2_inverts_powers_of_two() {
    for k in 0..=32u32 {
        let n: usize = 1usize << k;
        let r = inv_pow2(n);
        assert_eq!(r.mul(Fe::new(n as u64)), Fe::one(), "k: {k}");
    }
    assert_eq!(inv_pow2(2).as_u64(), HALF);
}

#[test]
fn test_boundary_single_root_table() {
    assert_eq!(nth_root_powers(1), vec![Fe::one()]);
    assert_eq!(nth_root_powers(2), vec![Fe::one(), Fe::new(MODULUS - 1)]);

    // the fourth root of unity of this field is 2^48
    let fourth = nth_root_powers(4);
    assert_eq!(fourth[1].as_u64(), 1u64 << 48);
    assert_eq!(fourth[2].as_u64(), MODULUS - 1);
    assert_eq!(fourth[3], fourth[1].neg());

    // a length-1 polynomial against the length-1 table is a constant
    let poly = vec![Fe::new(42)];
    let roots = nth_root_powers(1);
    let at_zero = poly_eval_rhizomes(&poly, &roots, &Fe::new(0));
    let at_seven = poly_eval_rhizomes(&poly, &roots, &Fe::new(7));
    assert_eq!(at_zero, Fe::new(42));
    assert_eq!(at_zero, at_seven);
}

#[test]
fn test_root_orders() {
    assert!(Fe::root(33).is_none());
    for k in 0..=8u32 {
        let w = Fe::root(k as usize).unwrap();
        // w has order exactly 2^k: half the order lands on -1, the full order on 1
        if k > 0 {
            assert_eq!(w.pow(1u64 << (k - 1)), Fe::new(MODULUS - 1));
        }
        assert_eq!(w.pow(1u64 << k), Fe::one());
    }
}

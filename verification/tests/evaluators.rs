//! Tests for the root-table builder and the rhizome evaluators.

use rhizomes::field::Fe;
use rhizomes::ntt::{ntt, ntt_inv_finish};
use rhizomes::{nth_root_powers, poly_eval_rhizomes, poly_eval_rhizomes_batched};

/// A small deterministic generator for test inputs.
fn rng_next(state: &mut u64) -> u64 {
    let mut x = *state;
    x ^= x << 13;
    x ^= x >> 7;
    x ^= x << 17;
    *state = x;
    x
}

fn random_vector(n: usize, state: &mut u64) -> Vec<Fe> {
    (0..n).map(|_| Fe::new(rng_next(state))).collect()
}

/// Evaluates a polynomial given in the monomial basis with Horner's method.
fn poly_eval(poly: &[Fe], x: Fe) -> Fe {
    let mut r = Fe::zero();
    for c in poly.iter().rev() {
        r = r.mul(x).add(*c);
    }
    r
}

/// Evaluates a polynomial given in Lagrange basis.
///
/// Converts the polynomial from the Lagrange to monomial basis (with inverse NTT),
/// and performs evaluation using the Horner's method.
fn poly_eval_monomial(points: &[Fe], eval_at: Fe, tmp_coeffs: &mut Vec<Fe>, size_inv: Fe) -> Fe {
    ntt(tmp_coeffs, points, points.len());
    ntt_inv_finish(tmp_coeffs, points.len(), size_inv);
    poly_eval(&tmp_coeffs[..points.len()], eval_at)
}

/// The iterative root-table construction: successive multiplication by a
/// primitive root of the matching order.
fn nth_root_powers_slow(n: usize) -> Vec<Fe> {
    let log2_n = n.trailing_zeros() as usize;
    let wn = Fe::root(log2_n).unwrap();
    let mut v = Vec::with_capacity(n);
    let mut x = Fe::one();
    for _ in 0..n {
        v.push(x);
        x = x.mul(wn);
    }
    v
}

#[test]
fn test_nth_root_powers() {
    for i in 0..8 {
        assert_eq!(nth_root_powers(1 << i), nth_root_powers_slow(1 << i));
    }
}

#[test]
fn test_poly_eval_rhizomes() {
    let mut seed: u64 = 0x5ca1ab1e5eed;
    for size in (1usize..100).step_by(10) {
        let n: usize = size.next_power_of_two();
        let n_inv = Fe::new(n as u64).inv();
        let values = random_vector(n, &mut seed);
        let x = random_vector(1, &mut seed)[0];
        let mut ntt_mem = vec![Fe::zero(); n];

        // Evaluates a polynomial converting to the monomial basis.
        let want = poly_eval_monomial(&values, x, &mut ntt_mem, n_inv);

        // Evaluates a polynomial directly in the Lagrange basis.
        let roots = nth_root_powers(n);
        let got = poly_eval_rhizomes(&values, &roots, &x);
        assert_eq!(got, want, "n: {n} x: {x} values: {values:?}", x = x.as_u64());
    }
}

#[test]
fn test_poly_eval_batched_ones() {
    test_poly_eval_batched(&[1]);
    test_poly_eval_batched(&[1, 1]);
}

#[test]
fn test_poly_eval_batched_powers() {
    test_poly_eval_batched(&[1, 2, 4, 16, 64]);
}

#[test]
fn test_poly_eval_batched_arbitrary() {
    test_poly_eval_batched(&[1, 6, 3, 9]);
}

fn test_poly_eval_batched(lengths: &[usize]) {
    let mut seed: u64 = 0xfeedface1234;
    let sizes = lengths
        .iter()
        .map(|s| s.next_power_of_two())
        .collect::<Vec<_>>();

    let polynomials = sizes
        .iter()
        .map(|&size| random_vector(size, &mut seed))
        .collect::<Vec<_>>();
    let x = random_vector(1, &mut seed)[0];

    let &n = sizes.iter().max().unwrap();
    let n_inv = Fe::new(n as u64).inv();
    let mut ntt_mem = vec![Fe::zero(); n];
    let roots = nth_root_powers(n);

    // Evaluates several polynomials converting them to the monomial basis (iteratively).
    let want = polynomials
        .iter()
        .map(|poly| {
            let extended_poly = [poly.clone(), vec![Fe::zero(); n - poly.len()]].concat();
            poly_eval_monomial(&extended_poly, x, &mut ntt_mem, n_inv)
        })
        .collect::<Vec<_>>();

    // Evaluates several polynomials directly in the Lagrange basis (iteratively).
    let got = polynomials
        .iter()
        .map(|poly| poly_eval_rhizomes(poly, &roots, &x))
        .collect::<Vec<_>>();
    assert_eq!(got, want, "sizes: {sizes:?} x: {x} P: {polynomials:?}", x = x.as_u64());

    // Simultaneously evaluates several polynomials directly in the Lagrange basis (batched).
    let got = poly_eval_rhizomes_batched(&polynomials, &roots, x);
    assert_eq!(got, want, "sizes: {sizes:?} x: {x} P: {polynomials:?}", x = x.as_u64());
}

//! Arithmetic in the prime field of order `2^64 - 2^32 + 1`.
//!
//! The modulus is NTT-friendly: its multiplicative group has order
//! `2^32 * (2^32 - 1)`, so the field holds primitive roots of unity of
//! every two-power order up to `2^32`. Every operation is specified
//! exactly against the mathematical residues modulo the prime.

use vstd::arithmetic::div_mod::{
    lemma_add_mod_noop, lemma_mod_add_multiples_vanish, lemma_mod_sub_multiples_vanish,
    lemma_mod_multiples_vanish, lemma_mul_mod_noop_general, lemma_small_mod,
};
use vstd::arithmetic::mul::{lemma_mul_is_associative, lemma_mul_is_commutative};
use vstd::arithmetic::power::{lemma_pow0, lemma_pow1, lemma_pow_adds, lemma_pow_mod_noop,
    lemma_pow_multiplies, pow};
use vstd::arithmetic::power2::{lemma2_to64, lemma_pow2_adds, lemma_pow2_unfold, pow2};
use vstd::prelude::*;

verus! {

/// The field modulus, a prime: `2^64 - 2^32 + 1`.
pub const MODULUS: u64 = 18446744069414584321;

/// The multiplicative inverse of two, `(MODULUS + 1) / 2`.
pub const HALF: u64 = 9223372034707292161;

/// A generator of the order-`2^32` subgroup: a primitive `2^32`-th root of unity.
pub const TWO_ADIC_GENERATOR: u64 = 1753635133440165772;

/// The modulus as a mathematical integer.
pub open spec fn fp() -> int {
    MODULUS as int
}

/// Field addition on residues.
pub open spec fn f_add(a: int, b: int) -> int {
    (a + b) % fp()
}

/// Field subtraction on residues.
pub open spec fn f_sub(a: int, b: int) -> int {
    (a - b) % fp()
}

/// Field negation on residues.
pub open spec fn f_neg(a: int) -> int {
    (0 - a) % fp()
}

/// Field multiplication on residues.
pub open spec fn f_mul(a: int, b: int) -> int {
    (a * b) % fp()
}

/// Field exponentiation on residues.
pub open spec fn f_pow(b: int, e: nat) -> int {
    pow(b, e) % fp()
}

/// The value the field's inversion operation yields: `b^(MODULUS - 2)`.
/// For nonzero `b` this is the multiplicative inverse; for zero it is zero.
pub open spec fn f_inv(b: int) -> int {
    f_pow(b, (MODULUS - 2) as nat)
}

/// An element of the field, held as its canonical residue.
#[derive(Clone, Copy, PartialEq, Eq, Structural, Debug)]
pub struct Fe {
    v: u64,
}

impl View for Fe {
    type V = int;

    closed spec fn view(&self) -> int {
        self.v as int
    }
}

impl Fe {
    /// The element is in canonical form: a residue below the modulus.
    pub open spec fn wf(self) -> bool {
        0 <= self@ < fp()
    }

    /// The additive identity.
    pub fn zero() -> (r: Fe)
        ensures
            r.wf(),
            r@ == 0,
    {
        Fe { v: 0 }
    }

    /// The multiplicative identity.
    pub fn one() -> (r: Fe)
        ensures
            r.wf(),
            r@ == 1,
    {
        Fe { v: 1 }
    }

    /// The multiplicative inverse of two.
    pub fn half() -> (r: Fe)
        ensures
            r.wf(),
            r@ == HALF as int,
            f_mul(r@, 2) == 1,
    {
        proof {
            lemma_mod_add_multiples_vanish(1, fp());
            lemma_small_mod(1nat, fp() as nat);
        }
        Fe { v: HALF }
    }

    /// Builds the element congruent to `x`.
    pub fn new(x: u64) -> (r: Fe)
        ensures
            r.wf(),
            r@ == x as int % fp(),
    {
        Fe { v: x % MODULUS }
    }

    /// The canonical residue of the element.
    pub fn as_u64(self) -> (r: u64)
        ensures
            r as int == self@,
    {
        self.v
    }

    /// Field addition.
    pub fn add(self, rhs: Fe) -> (r: Fe)
        requires
            self.wf(),
            rhs.wf(),
        ensures
            r.wf(),
            r@ == f_add(self@, rhs@),
    {
        let s: u128 = self.v as u128 + rhs.v as u128;
        let t: u64 = if s >= MODULUS as u128 {
            (s - MODULUS as u128) as u64
        } else {
            s as u64
        };
        proof {
            if self@ + rhs@ >= fp() {
                lemma_mod_sub_multiples_vanish(self@ + rhs@, fp());
                lemma_small_mod((self@ + rhs@ - fp()) as nat, fp() as nat);
            } else {
                lemma_small_mod((self@ + rhs@) as nat, fp() as nat);
            }
        }
        Fe { v: t }
    }

    /// Field subtraction.
    pub fn sub(self, rhs: Fe) -> (r: Fe)
        requires
            self.wf(),
            rhs.wf(),
        ensures
            r.wf(),
            r@ == f_sub(self@, rhs@),
    {
        let s: u128 = self.v as u128 + MODULUS as u128 - rhs.v as u128;
        let t: u64 = if s >= MODULUS as u128 {
            (s - MODULUS as u128) as u64
        } else {
            s as u64
        };
        proof {
            lemma_mod_add_multiples_vanish(self@ - rhs@, fp());
            if self@ - rhs@ + fp() >= fp() {
                lemma_mod_sub_multiples_vanish(self@ - rhs@ + fp(), fp());
                lemma_small_mod((self@ - rhs@) as nat, fp() as nat);
            } else {
                lemma_small_mod((self@ - rhs@ + fp()) as nat, fp() as nat);
            }
        }
        Fe { v: t }
    }

    /// Field negation.
    pub fn neg(self) -> (r: Fe)
        requires
            self.wf(),
        ensures
            r.wf(),
            r@ == f_neg(self@),
    {
        let t: u64 = if self.v == 0 {
            0
        } else {
            MODULUS - self.v
        };
        proof {
            if self@ == 0 {
                lemma_small_mod(0, fp() as nat);
            } else {
                lemma_mod_add_multiples_vanish(0 - self@, fp());
                lemma_small_mod((fp() - self@) as nat, fp() as nat);
            }
        }
        Fe { v: t }
    }

    /// Field multiplication.
    pub fn mul(self, rhs: Fe) -> (r: Fe)
        requires
            self.wf(),
            rhs.wf(),
        ensures
            r.wf(),
            r@ == f_mul(self@, rhs@),
    {
        proof {
            assert(self@ * rhs@ <= (fp() - 1) * (fp() - 1)) by (nonlinear_arith)
                requires
                    0 <= self@ < fp(),
                    0 <= rhs@ < fp(),
            ;
        }
        let m: u128 = self.v as u128 * rhs.v as u128;
        let t: u64 = (m % (MODULUS as u128)) as u64;
        Fe { v: t }
    }
}


/// Multiplying two reduced powers squares the power: `(b^e mod p)^2 mod p == b^(2e) mod p`.
pub proof fn lemma_fpow_square(a: int, e: nat)
    ensures
        f_mul(f_pow(a, e), f_pow(a, e)) == f_pow(a, 2 * e),
{
    lemma_pow_adds(a, e, e);
    lemma_mul_mod_noop_general(pow(a, e), pow(a, e), fp());
}

/// Exponents add under field multiplication of powers.
pub proof fn lemma_fpow_add(a: int, e1: nat, e2: nat)
    ensures
        f_mul(f_pow(a, e1), f_pow(a, e2)) == f_pow(a, e1 + e2),
{
    lemma_pow_adds(a, e1, e2);
    lemma_mul_mod_noop_general(pow(a, e1), pow(a, e2), fp());
}

/// One more factor of the base raises the exponent by one.
pub proof fn lemma_fpow_succ(b: int, e: nat)
    ensures
        f_mul(b, f_pow(b, e)) == f_pow(b, e + 1),
{
    lemma_pow1(b);
    lemma_fpow_add(b, 1, e);
    lemma_mul_mod_noop_general(b, pow(b, e), fp());
    assert(f_mul(b, f_pow(b, e)) == (b * pow(b, e)) % fp()) by {
        lemma_mul_mod_noop_general(b, pow(b, e), fp());
    };
    assert((b * pow(b, e)) % fp() == (pow(b, 1) * pow(b, e)) % fp());
}

/// A square under the modulus exponentiates like the plain square.
pub proof fn lemma_fpow_of_square(a: int, e: nat)
    ensures
        f_pow(f_mul(a, a), e) == f_pow(a, 2 * e),
{
    lemma_pow_mod_noop(a * a, e, fp());
    lemma_pow_adds(a, 1, 1);
    lemma_pow1(a);
    lemma_pow_multiplies(a, 2, e);
}

/// Twice one half is one in the field.
pub proof fn lemma_half_two()
    ensures
        f_mul(HALF as int, 2) == 1,
{
    lemma_mod_add_multiples_vanish(1, fp());
    lemma_small_mod(1nat, fp() as nat);
}

/// Field multiplication is associative.
pub proof fn lemma_fmul_assoc(a: int, b: int, c: int)
    ensures
        f_mul(f_mul(a, b), c) == f_mul(a, f_mul(b, c)),
{
    lemma_mul_mod_noop_general(a * b, c, fp());
    lemma_mul_mod_noop_general(a, b * c, fp());
    lemma_mul_is_associative(a, b, c);
}

/// A product of three factors is the same under every association and order.
pub proof fn lemma_fmul_abc(a: int, b: int, c: int)
    ensures
        f_mul(f_mul(a, b), c) == f_mul(a, f_mul(b, c)),
        f_mul(f_mul(a, b), c) == f_mul(c, f_mul(b, a)),
        f_mul(f_mul(a, b), c) == f_mul(b, f_mul(c, a)),
        f_mul(a, f_mul(b, c)) == f_mul(b, f_mul(c, a)),
{
    lemma_fmul_assoc(a, b, c);
    assert(f_mul(f_mul(a, b), c) == f_mul(c, f_mul(a, b)));
    assert(f_mul(a, b) == f_mul(b, a));
    lemma_fmul_assoc(b, c, a);
    assert(f_mul(a, f_mul(b, c)) == f_mul(f_mul(b, c), a));
}

/// Field multiplication distributes over field addition.
pub proof fn lemma_fmul_distrib(a: int, b: int, c: int)
    ensures
        f_mul(f_add(a, b), c) == f_add(f_mul(a, c), f_mul(b, c)),
{
    lemma_mul_mod_noop_general(a + b, c, fp());
    lemma_add_mod_noop(a * c, b * c, fp());
    assert((a + b) * c == a * c + b * c) by (nonlinear_arith);
}

/// A reduced argument multiplies the same way.
pub proof fn lemma_fmul_reduce_left(a: int, b: int)
    ensures
        f_mul(a % fp(), b) == f_mul(a, b),
{
    lemma_mul_mod_noop_general(a, b, fp());
}

/// Multiplying a canonical residue by `-1` negates it.
pub proof fn lemma_fmul_neg_one(a: int)
    requires
        0 <= a < fp(),
    ensures
        f_mul(a, fp() - 1) == f_neg(a),
{
    lemma_mod_multiples_vanish(a, 0 - a, fp());
    assert(a * (fp() - 1) == fp() * a + (0 - a)) by (nonlinear_arith);
}

/// The order of the two-adic generator: its `2^31`-th power is `-1`.
pub proof fn lemma_generator_half_order()
    ensures
        f_pow(TWO_ADIC_GENERATOR as int, pow2(31)) == fp() - 1,
{
    let g = TWO_ADIC_GENERATOR as int;
    assert(f_pow(g, pow2(0)) == 1753635133440165772int) by {
        lemma2_to64();
        lemma_pow1(g);
        lemma_small_mod(1753635133440165772nat, 18446744069414584321nat);
    };
    assert(f_pow(g, pow2(1)) == 4614640910117430873int) by {
        lemma_pow2_unfold(1);
        lemma_fpow_square(g, pow2(0));
        assert((1753635133440165772int * 1753635133440165772int) % 18446744069414584321int == 4614640910117430873int) by (nonlinear_arith);
    };
    assert(f_pow(g, pow2(2)) == 9123114210336311365int) by {
        lemma_pow2_unfold(2);
        lemma_fpow_square(g, pow2(1));
        assert((4614640910117430873int * 4614640910117430873int) % 18446744069414584321int == 9123114210336311365int) by (nonlinear_arith);
    };
    assert(f_pow(g, pow2(3)) == 16116352524544190054int) by {
        lemma_pow2_unfold(3);
        lemma_fpow_square(g, pow2(2));
        assert((9123114210336311365int * 9123114210336311365int) % 18446744069414584321int == 16116352524544190054int) by (nonlinear_arith);
    };
    assert(f_pow(g, pow2(4)) == 6414415596519834757int) by {
        lemma_pow2_unfold(4);
        lemma_fpow_square(g, pow2(3));
        assert((16116352524544190054int * 16116352524544190054int) % 18446744069414584321int == 6414415596519834757int) by (nonlinear_arith);
    };
    assert(f_pow(g, pow2(5)) == 1213594585890690845int) by {
        lemma_pow2_unfold(5);
        lemma_fpow_square(g, pow2(4));
        assert((6414415596519834757int * 6414415596519834757int) % 18446744069414584321int == 1213594585890690845int) by (nonlinear_arith);
    };
    assert(f_pow(g, pow2(6)) == 17096174751763063430int) by {
        lemma_pow2_unfold(6);
        lemma_fpow_square(g, pow2(5));
        assert((1213594585890690845int * 1213594585890690845int) % 18446744069414584321int == 17096174751763063430int) by (nonlinear_arith);
    };
    assert(f_pow(g, pow2(7)) == 5456943929260765144int) by {
        lemma_pow2_unfold(7);
        lemma_fpow_square(g, pow2(6));
        assert((17096174751763063430int * 17096174751763063430int) % 18446744069414584321int == 5456943929260765144int) by (nonlinear_arith);
    };
    assert(f_pow(g, pow2(8)) == 9713644485405565297int) by {
        lemma_pow2_unfold(8);
        lemma_fpow_square(g, pow2(7));
        assert((5456943929260765144int * 5456943929260765144int) % 18446744069414584321int == 9713644485405565297int) by (nonlinear_arith);
    };
    assert(f_pow(g, pow2(9)) == 16905767614792059275int) by {
        lemma_pow2_unfold(9);
        lemma_fpow_square(g, pow2(8));
        assert((9713644485405565297int * 9713644485405565297int) % 18446744069414584321int == 16905767614792059275int) by (nonlinear_arith);
    };
    assert(f_pow(g, pow2(10)) == 5416168637041100469int) by {
        lemma_pow2_unfold(10);
        lemma_fpow_square(g, pow2(9));
        assert((16905767614792059275int * 16905767614792059275int) % 18446744069414584321int == 5416168637041100469int) by (nonlinear_arith);
    };
    assert(f_pow(g, pow2(11)) == 17654865857378133588int) by {
        lemma_pow2_unfold(11);
        lemma_fpow_square(g, pow2(10));
        assert((5416168637041100469int * 5416168637041100469int) % 18446744069414584321int == 17654865857378133588int) by (nonlinear_arith);
    };
    assert(f_pow(g, pow2(12)) == 3511170319078647661int) by {
        lemma_pow2_unfold(12);
        lemma_fpow_square(g, pow2(11));
        assert((17654865857378133588int * 17654865857378133588int) % 18446744069414584321int == 3511170319078647661int) by (nonlinear_arith);
    };
    assert(f_pow(g, pow2(13)) == 18146160046829613826int) by {
        lemma_pow2_unfold(13);
        lemma_fpow_square(g, pow2(12));
        assert((3511170319078647661int * 3511170319078647661int) % 18446744069414584321int == 18146160046829613826int) by (nonlinear_arith);
    };
    assert(f_pow(g, pow2(14)) == 9306717745644682924int) by {
        lemma_pow2_unfold(14);
        lemma_fpow_square(g, pow2(13));
        assert((18146160046829613826int * 18146160046829613826int) % 18446744069414584321int == 9306717745644682924int) by (nonlinear_arith);
    };
    assert(f_pow(g, pow2(15)) == 12380578893860276750int) by {
        lemma_pow2_unfold(15);
        lemma_fpow_square(g, pow2(14));
        assert((9306717745644682924int * 9306717745644682924int) % 18446744069414584321int == 12380578893860276750int) by (nonlinear_arith);
    };
    assert(f_pow(g, pow2(16)) == 6115771955107415310int) by {
        lemma_pow2_unfold(16);
        lemma_fpow_square(g, pow2(15));
        assert((12380578893860276750int * 12380578893860276750int) % 18446744069414584321int == 6115771955107415310int) by (nonlinear_arith);
    };
    assert(f_pow(g, pow2(17)) == 17776499369601055404int) by {
        lemma_pow2_unfold(17);
        lemma_fpow_square(g, pow2(16));
        assert((6115771955107415310int * 6115771955107415310int) % 18446744069414584321int == 17776499369601055404int) by (nonlinear_arith);
    };
    assert(f_pow(g, pow2(18)) == 16207902636198568418int) by {
        lemma_pow2_unfold(18);
        lemma_fpow_square(g, pow2(17));
        assert((17776499369601055404int * 17776499369601055404int) % 18446744069414584321int == 16207902636198568418int) by (nonlinear_arith);
    };
    assert(f_pow(g, pow2(19)) == 1532612707718625687int) by {
        lemma_pow2_unfold(19);
        lemma_fpow_square(g, pow2(18));
        assert((16207902636198568418int * 16207902636198568418int) % 18446744069414584321int == 1532612707718625687int) by (nonlinear_arith);
    };
    assert(f_pow(g, pow2(20)) == 17492915097719143606int) by {
        lemma_pow2_unfold(20);
        lemma_fpow_square(g, pow2(19));
        assert((1532612707718625687int * 1532612707718625687int) % 18446744069414584321int == 17492915097719143606int) by (nonlinear_arith);
    };
    assert(f_pow(g, pow2(21)) == 455906449640507599int) by {
        lemma_pow2_unfold(21);
        lemma_fpow_square(g, pow2(20));
        assert((17492915097719143606int * 17492915097719143606int) % 18446744069414584321int == 455906449640507599int) by (nonlinear_arith);
    };
    assert(f_pow(g, pow2(22)) == 11353340290879379826int) by {
        lemma_pow2_unfold(22);
        lemma_fpow_square(g, pow2(21));
        assert((455906449640507599int * 455906449640507599int) % 18446744069414584321int == 11353340290879379826int) by (nonlinear_arith);
    };
    assert(f_pow(g, pow2(23)) == 1803076106186727246int) by {
        lemma_pow2_unfold(23);
        lemma_fpow_square(g, pow2(22));
        assert((11353340290879379826int * 11353340290879379826int) % 18446744069414584321int == 1803076106186727246int) by (nonlinear_arith);
    };
    assert(f_pow(g, pow2(24)) == 13797081185216407910int) by {
        lemma_pow2_unfold(24);
        lemma_fpow_square(g, pow2(23));
        assert((1803076106186727246int * 1803076106186727246int) % 18446744069414584321int == 13797081185216407910int) by (nonlinear_arith);
    };
    assert(f_pow(g, pow2(25)) == 17870292113338400769int) by {
        lemma_pow2_unfold(25);
        lemma_fpow_square(g, pow2(24));
        assert((13797081185216407910int * 13797081185216407910int) % 18446744069414584321int == 17870292113338400769int) by (nonlinear_arith);
    };
    assert(f_pow(g, pow2(26)) == 549755813888int) by {
        lemma_pow2_unfold(26);
        lemma_fpow_square(g, pow2(25));
        assert((17870292113338400769int * 17870292113338400769int) % 18446744069414584321int == 549755813888int) by (nonlinear_arith);
    };
    assert(f_pow(g, pow2(27)) == 70368744161280int) by {
        lemma_pow2_unfold(27);
        lemma_fpow_square(g, pow2(26));
        assert((549755813888int * 549755813888int) % 18446744069414584321int == 70368744161280int) by (nonlinear_arith);
    };
    assert(f_pow(g, pow2(28)) == 17293822564807737345int) by {
        lemma_pow2_unfold(28);
        lemma_fpow_square(g, pow2(27));
        assert((70368744161280int * 70368744161280int) % 18446744069414584321int == 17293822564807737345int) by (nonlinear_arith);
    };
    assert(f_pow(g, pow2(29)) == 18446744069397807105int) by {
        lemma_pow2_unfold(29);
        lemma_fpow_square(g, pow2(28));
        assert((17293822564807737345int * 17293822564807737345int) % 18446744069414584321int == 18446744069397807105int) by (nonlinear_arith);
    };
    assert(f_pow(g, pow2(30)) == 281474976710656int) by {
        lemma_pow2_unfold(30);
        lemma_fpow_square(g, pow2(29));
        assert((18446744069397807105int * 18446744069397807105int) % 18446744069414584321int == 281474976710656int) by (nonlinear_arith);
    };
    assert(f_pow(g, pow2(31)) == 18446744069414584320int) by {
        lemma_pow2_unfold(31);
        lemma_fpow_square(g, pow2(30));
        assert((281474976710656int * 281474976710656int) % 18446744069414584321int == 18446744069414584320int) by (nonlinear_arith);
    };
}

/// The generator's `2^32`-th power is one.
pub proof fn lemma_generator_order()
    ensures
        f_pow(TWO_ADIC_GENERATOR as int, pow2(32)) == 1,
{
    let g = TWO_ADIC_GENERATOR as int;
    lemma_generator_half_order();
    lemma_pow2_unfold(32);
    lemma_fpow_square(g, pow2(31));
    assert((18446744069414584320int * 18446744069414584320int) % 18446744069414584321int == 1int)
        by (nonlinear_arith);
}

/// The primitive root of unity of order `2^k`, for `k <= 32`.
pub open spec fn root_of_unity(k: nat) -> int
    recommends
        k <= 32,
{
    f_pow(TWO_ADIC_GENERATOR as int, pow2((32 - k) as nat))
}

/// Squaring the root of order `2^k` yields the root of order `2^(k-1)`.
pub proof fn lemma_root_square(k: nat)
    requires
        1 <= k <= 32,
    ensures
        f_mul(root_of_unity(k), root_of_unity(k)) == root_of_unity((k - 1) as nat),
{
    lemma_fpow_square(TWO_ADIC_GENERATOR as int, pow2((32 - k) as nat));
    lemma_pow2_unfold((33 - k) as nat);
}

/// The root of order `2^k` raised to `2^j` is the root of order `2^(k-j)`.
pub proof fn lemma_root_pow2(k: nat, j: nat)
    requires
        k <= 32,
        j <= k,
    ensures
        f_pow(root_of_unity(k), pow2(j)) == root_of_unity((k - j) as nat),
{
    let g = TWO_ADIC_GENERATOR as int;
    lemma_pow_mod_noop(pow(g, pow2((32 - k) as nat)), pow2(j), fp());
    lemma_pow_multiplies(g, pow2((32 - k) as nat), pow2(j));
    lemma_pow2_adds((32 - k) as nat, j);
}

/// Half the order takes any `2^k`-th root to `-1`.
pub proof fn lemma_root_half_order(k: nat)
    requires
        1 <= k <= 32,
    ensures
        f_pow(root_of_unity(k), pow2((k - 1) as nat)) == fp() - 1,
{
    lemma_root_pow2(k, (k - 1) as nat);
    lemma_generator_half_order();
}

/// The full order takes any `2^k`-th root to one.
pub proof fn lemma_root_full_order(k: nat)
    requires
        k <= 32,
    ensures
        f_pow(root_of_unity(k), pow2(k)) == 1,
{
    lemma_root_pow2(k, k);
    lemma_generator_order();
}

impl Fe {
    /// Field exponentiation by square and multiply.
    pub fn pow(self, e: u64) -> (r: Fe)
        requires
            self.wf(),
        ensures
            r.wf(),
            r@ == f_pow(self@, e as nat),
    {
        let mut base = self;
        let mut exp: u64 = e;
        let mut acc = Fe::one();
        proof {
            lemma_fmul_reduce_left(pow(base@, exp as nat), 1);
            lemma_mul_mod_noop_general(1, pow(base@, exp as nat), fp());
        }
        while exp > 0
            invariant
                base.wf(),
                acc.wf(),
                f_mul(acc@, pow(base@, exp as nat)) == f_pow(self@, e as nat),
            decreases exp,
        {
            let ghost b0 = base@;
            let ghost a0 = acc@;
            let ghost e0 = exp as nat;
            if exp % 2 == 1 {
                acc = acc.mul(base);
            }
            base = base.mul(base);
            exp = exp / 2;
            proof {
                let e1 = exp as nat;
                // pow(b0*b0 mod p, e1) reduces to pow(b0, 2*e1) under the outer modulus
                lemma_pow_mod_noop(b0 * b0, e1, fp());
                lemma_pow_multiplies(b0, 2, e1);
                lemma_pow_adds(b0, 1, 1);
                lemma_pow1(b0);
                lemma_mul_mod_noop_general(a0 * b0, pow(base@, e1), fp());
                lemma_mul_mod_noop_general(a0 * b0, pow(b0 * b0, e1), fp());
                if e0 % 2 == 1 {
                    assert(e0 == 2 * e1 + 1);
                    lemma_pow_adds(b0, 1, 2 * e1);
                    assert(a0 * b0 * pow(b0, 2 * e1) == a0 * (b0 * pow(b0, 2 * e1)))
                        by (nonlinear_arith);
                    lemma_mul_mod_noop_general(a0, b0 * pow(b0, 2 * e1), fp());
                    lemma_mul_mod_noop_general(a0, pow(b0, e0), fp());
                } else {
                    assert(e0 == 2 * e1);
                    lemma_mul_mod_noop_general(a0, pow(base@, e1), fp());
                    lemma_mul_mod_noop_general(a0, pow(b0 * b0, e1), fp());
                    lemma_mul_mod_noop_general(a0, pow(b0, e0), fp());
                }
            }
        }
        proof {
            lemma_pow0(base@);
            lemma_small_mod(acc@ as nat, fp() as nat);
        }
        acc
    }

    /// The field's inversion operation: exponentiation by `MODULUS - 2`.
    /// Yields the multiplicative inverse of a nonzero element, zero for zero.
    pub fn inv(self) -> (r: Fe)
        requires
            self.wf(),
        ensures
            r.wf(),
            r@ == f_inv(self@),
    {
        self.pow(MODULUS - 2)
    }

    /// The primitive root of unity of order `2^k`, or `None` when the order
    /// exceeds the field's two-adicity of 32.
    pub fn root(k: usize) -> (r: Option<Fe>)
        ensures
            k <= 32 ==> r is Some && r->0.wf() && r->0@ == root_of_unity(k as nat),
            k > 32 ==> r is None,
    {
        if k > 32 {
            return None;
        }
        let mut x = Fe { v: TWO_ADIC_GENERATOR };
        let mut i: usize = 0;
        proof {
            lemma2_to64();
            lemma_pow1(x@);
            lemma_small_mod(TWO_ADIC_GENERATOR as nat, fp() as nat);
        }
        while i < 32 - k
            invariant
                k <= 32,
                i <= 32 - k,
                x.wf(),
                x@ == f_pow(TWO_ADIC_GENERATOR as int, pow2(i as nat)),
            decreases 32 - k - i,
        {
            proof {
                lemma_fpow_square(TWO_ADIC_GENERATOR as int, pow2(i as nat));
                lemma_pow2_unfold((i + 1) as nat);
            }
            x = x.mul(x);
            i = i + 1;
        }
        Some(x)
    }
}

} // verus!

//! The first guess of a reciprocal square root.
//!
//! The bit pattern of a number is close enough to its own logarithm that
//! halving it and subtracting from a constant lands within a few percent of the
//! reciprocal square root. The caller refines the guess by two Newton steps.

use crate::binary32::{one, Binary32};
use vstd::arithmetic::power2::{lemma2_to64, lemma_pow2_adds, lemma_pow2_pos, pow2};
use vstd::prelude::*;

verus! {

/// The constant that the halved pattern is subtracted from.
pub const MAGIC: u32 = 0x5f37_59df;

/// The pattern of the first guess.
pub open spec fn seed(bits: int) -> int {
    MAGIC - bits / 2
}

/// A first guess of one over the square root of `x`.
pub fn rsqrt_seed(x: Binary32) -> (y: Binary32)
    requires
        x.bits / 2 <= MAGIC,
    ensures
        y.bits == seed(x.bits as int),
{
    Binary32 { bits: MAGIC - x.bits / 2 }
}

/// A cubic `x * x * (k - 2 * x)` rises up to a third of `k` and falls from
/// there on, so between two places it is nowhere lower than at both.
proof fn lemma_cubic_low(x: int, x1: int, x2: int, k: int, low: int)
    requires
        0 <= x1 <= x <= x2,
        low <= x1 * x1 * (k - 2 * x1),
        low <= x2 * x2 * (k - 2 * x2),
        0 <= k,
    ensures
        low <= x * x * (k - 2 * x),
{
    if 3 * x <= k {
        let rise: int = k * (x + x1) - 2 * (x * x + x * x1 + x1 * x1);
        lemma_cubic_step(x, x1, k);
        assert(x1 * x1 <= x * x1) by (nonlinear_arith)
            requires
                0 <= x1 <= x,
        ;
        assert(x * x1 <= x * x) by (nonlinear_arith)
            requires
                0 <= x1 <= x,
        ;
        assert((3 * x) * (x + x1) <= k * (x + x1)) by (nonlinear_arith)
            requires
                0 <= x + x1,
                3 * x <= k,
        ;
        assert((3 * x) * (x + x1) == 3 * (x * x) + 3 * (x * x1)) by (nonlinear_arith);
        assert((x - x1) * rise >= 0) by (nonlinear_arith)
            requires
                x1 <= x,
                rise >= 0,
        ;
    } else {
        let rise: int = k * (x + x2) - 2 * (x * x + x * x2 + x2 * x2);
        lemma_cubic_step(x, x2, k);
        assert(x * x <= x * x2) by (nonlinear_arith)
            requires
                0 <= x <= x2,
        ;
        assert(x * x2 <= x2 * x2) by (nonlinear_arith)
            requires
                0 <= x <= x2,
        ;
        assert(k * (x + x2) <= (3 * x) * (x + x2)) by (nonlinear_arith)
            requires
                0 <= x + x2,
                k <= 3 * x,
        ;
        assert((3 * x) * (x + x2) == 3 * (x * x) + 3 * (x * x2)) by (nonlinear_arith);
        assert((x - x2) * rise >= 0) by (nonlinear_arith)
            requires
                x <= x2,
                rise <= 0,
        ;
    }
}

/// The difference of the cubic between two places, as a product with their
/// distance.
proof fn lemma_cubic_step(x: int, y: int, k: int)
    ensures
        x * x * (k - 2 * x) - y * y * (k - 2 * y) == (x - y) * (k * (x + y) - 2 * (x * x + x * y
            + y * y)),
{
    let (xx, xy, yy): (int, int, int) = (x * x, x * y, y * y);
    assert(xx * (k - 2 * x) == k * xx - 2 * (x * xx)) by (nonlinear_arith);
    assert(yy * (k - 2 * y) == k * yy - 2 * (y * yy)) by (nonlinear_arith);
    assert((x - y) * (k * (x + y) - 2 * (xx + xy + yy)) == (x - y) * (k * (x + y)) - 2 * ((x - y)
        * (xx + xy + yy))) by (nonlinear_arith);
    assert((x - y) * (k * (x + y)) == k * (x * x) - k * (y * y)) by (nonlinear_arith);
    assert((x - y) * (xx + xy + yy) == x * xx + x * xy + x * yy - y * xx - y * xy - y * yy)
        by (nonlinear_arith);
    assert(x * (x * y) == y * (x * x)) by (nonlinear_arith);
    assert(x * (y * y) == y * (x * y)) by (nonlinear_arith);
}

/// The product of three numbers is at most the cube of their mean.
proof fn lemma_cubic_high(x: int, z: int)
    requires
        0 <= x,
        0 <= z,
    ensures
        27 * (x * x * z) <= (2 * x + z) * (2 * x + z) * (2 * x + z),
{
    let d: int = (z - x) * (z - x);
    assert((2 * x + z) * (2 * x + z) * (2 * x + z) - 27 * (x * x * z) == d * (z + 8 * x))
        by (nonlinear_arith)
        requires
            d == (z - x) * (z - x),
    ;
    assert(d >= 0) by (nonlinear_arith)
        requires
            d == (z - x) * (z - x),
    ;
    assert(d * (z + 8 * x) >= 0) by (nonlinear_arith)
        requires
            d >= 0,
            x >= 0,
            z >= 0,
    ;
}

/// Whether the product of the squared guess and the number, both in units of
/// 2^-149, is one to within three and a half percent of the guess.
pub open spec fn close_to_one(product: int) -> bool {
    let cube = one() * one() * one();
    965 * 965 * cube <= 1_000_000 * product <= 1035 * 1035 * cube
}

/// Significands and exponents can be compared separately.
proof fn lemma_scaled(s1: int, s: int, a: nat, b: nat, n: nat)
    requires
        2 * a + b + n == 447,
        931_225 * pow2(n) <= 1_000_000 * (s1 * s1 * s) <= 1_071_225 * pow2(n),
    ensures
        close_to_one((s1 * pow2(a)) * (s1 * pow2(a)) * (s * pow2(b))),
{
    let (pa, pb, pn): (int, int, int) = (pow2(a) as int, pow2(b) as int, pow2(n) as int);
    let q: int = pa * pa * pb;
    let g: int = s1 * s1 * s;
    lemma_pow2_adds(a, a);
    lemma_pow2_adds(a + a, b);
    lemma_pow2_adds(a + a + b, n);
    lemma_pow2_adds(149, 149);
    lemma_pow2_adds(298, 149);
    lemma_pow2_pos(a + a + b);
    assert((s1 * pa) * (s1 * pa) * (s * pb) == g * q) by (nonlinear_arith)
        requires
            g == s1 * s1 * s,
            q == pa * pa * pb,
    ;
    assert(one() * one() * one() == q * pn);
    assert(931_225 * (q * pn) <= 1_000_000 * (g * q)) by (nonlinear_arith)
        requires
            931_225 * pn <= 1_000_000 * g,
            q > 0,
    ;
    assert(1_000_000 * (g * q) <= 1_071_225 * (q * pn)) by (nonlinear_arith)
        requires
            1_000_000 * g <= 1_071_225 * pn,
            q > 0,
    ;
}

/// The guess lands within a few percent of the answer: for every positive
/// number of full precision, its product with the square root of the number is
/// one to within three and a half percent. This is the same as bounds on the
/// squared guess times the number.
pub proof fn law_seed_is_close(x: Binary32)
    requires
        0x80_0000 <= x.bits < 0x7f80_0000,
    ensures
        ({
            let y = Binary32 { bits: seed(x.bits as int) as u32 };
            close_to_one(y.value() * y.value() * x.value())
        }),
{
    let y = Binary32 { bits: seed(x.bits as int) as u32 };
    let e: int = x.bits as int / 0x80_0000;
    let m: int = x.bits as int % 0x80_0000;
    let k: int = e / 2;
    let h: int = m / 2;
    let s: int = 0x80_0000 + m;
    lemma2_to64();
    lemma_pow2_adds(64, 6);
    lemma_pow2_adds(64, 7);
    lemma_pow2_adds(64, 8);
    assert(x.value() == s * pow2((e - 1) as nat));
    if e % 2 == 0 && h <= 3627487 {
        // The guess starts from the upper half of its binade.
        let s1: int = 12016095 - h;
        assert(y.bits == (190 - k) * 0x80_0000 + (3627487 - h));
        assert(y.bits as int / 0x80_0000 == 190 - k);
        assert(y.value() == s1 * pow2((189 - k) as nat));
        lemma_cubic_low(s1, 0x80_0000, 12016095, 32420798, 1099511627776000000000);
        lemma_product_range(s1, s, 32420798, 1099511627776000000000, 34100000000000000000000);
        lemma_scaled(s1, s, (189 - k) as nat, (e - 1) as nat, 70);
    } else if e % 2 == 0 {
        // The subtraction borrows from the exponent.
        let s1: int = 20404703 - h;
        assert(y.bits == (189 - k) * 0x80_0000 + (0x80_0000 + 3627487 - h));
        assert(y.bits as int / 0x80_0000 == 189 - k);
        assert(y.value() == s1 * pow2((188 - k) as nat));
        lemma_cubic_low(s1, 16210400, 16777215, 49198014, 4398046511104000000000);
        lemma_product_range(s1, s, 49198014, 4398046511104000000000, 119100000000000000000000);
        lemma_scaled(s1, s, (188 - k) as nat, (e - 1) as nat, 72);
    } else {
        // The odd exponent leaves half a binade, which always borrows.
        let s1: int = 16210399 - h;
        assert(y.bits == (189 - k) * 0x80_0000 + (0x80_0000 - 566817 - h));
        assert(y.bits as int / 0x80_0000 == 189 - k);
        assert(y.value() == s1 * pow2((188 - k) as nat));
        lemma_cubic_low(s1, 12016096, 16210399, 40809406, 2199023255552000000000);
        lemma_product_range(s1, s, 40809406, 2199023255552000000000, 67970000000000000000000);
        lemma_scaled(s1, s, (188 - k) as nat, (e - 1) as nat, 71);
    }
}

/// The product of the squared significand of the guess and that of the number,
/// from the cubic that it is up to one unit in the last place.
proof fn lemma_product_range(s1: int, s: int, k: int, low: int, high: int)
    requires
        0 <= s1,
        0 <= k - 2 * s1 <= s <= k - 2 * s1 + 1,
        low <= s1 * s1 * (k - 2 * s1),
        (k + 1) * (k + 1) * (k + 1) <= high,
    ensures
        low <= s1 * s1 * s,
        27 * (s1 * s1 * s) <= high,
{
    assert(s1 * s1 * (k - 2 * s1) <= s1 * s1 * s) by (nonlinear_arith)
        requires
            k - 2 * s1 <= s,
    ;
    lemma_cubic_high(s1, s);
    let (t, c): (int, int) = (2 * s1 + s, k + 1);
    assert(t * t <= c * c) by (nonlinear_arith)
        requires
            0 <= t <= c,
    ;
    assert((t * t) * t <= (c * c) * c) by (nonlinear_arith)
        requires
            0 <= t <= c,
            0 <= t * t <= c * c,
    ;
}

/// The guess and half of the pattern make up the constant: twice the guess and the
/// whole pattern give twice the constant, or one more where the pattern is odd.
pub proof fn law_seed_and_half_make_constant(bits: int)
    requires
        0 <= bits,
    ensures
        2 * seed(bits) + bits == 2 * 0x5f37_59df + bits % 2,
{
}

} // verus!

//! Reading binary32 numbers as integers.
//!
//! The geometry of the tracer is computed in hardware floating point, outside
//! this library. What reaches the library is the bit pattern of a result, and
//! what the library does with it is to decide: which of two distances is
//! nearer, which pixel column a coordinate falls in. Both questions have exact
//! answers. Every finite binary32 number is a whole multiple of 2^-149, so its
//! value is an integer in that unit, and the contracts below are about that
//! integer.

use vstd::arithmetic::div_mod::{
    lemma_div_by_multiple, lemma_div_denominator, lemma_div_is_ordered, lemma_fundamental_div_mod,
    lemma_fundamental_div_mod_converse, lemma_truncate_middle,
};
use vstd::arithmetic::mul::{
    lemma_mul_is_associative, lemma_mul_is_commutative, lemma_mul_strict_inequality,
    lemma_mul_inequality,
};
use vstd::arithmetic::power2::{
    lemma2_to64, lemma_pow2_adds, lemma_pow2_pos, lemma_pow2_strictly_increases, pow2,
};
use vstd::bits::{lemma_u32_shl_is_mul, lemma_u32_shr_is_div};
use vstd::prelude::*;

verus! {

/// The bit pattern of a binary32 number.
#[derive(Clone, Copy, Debug, PartialEq, Eq, Structural)]
pub struct Binary32 {
    pub bits: u32,
}

/// How many units of 2^-149 make up one.
pub open spec fn one() -> int {
    pow2(149) as int
}

/// The size of a number in units of 2^-149, from its exponent and fraction
/// fields. The pattern of infinity lies, by the same rule, above every finite
/// one.
pub open spec fn magnitude(field: nat) -> nat {
    let exponent = field / 0x80_0000;
    let fraction = field % 0x80_0000;
    if exponent == 0 {
        fraction
    } else {
        (0x80_0000 + fraction) * pow2((exponent - 1) as nat)
    }
}

/// Larger fields stand for larger numbers.
pub proof fn lemma_magnitude_increases(a: nat, b: nat)
    requires
        a < b,
    ensures
        magnitude(a) < magnitude(b),
{
    let ea: nat = a / 0x80_0000;
    let eb: nat = b / 0x80_0000;
    let fa: nat = a % 0x80_0000;
    let fb: nat = b % 0x80_0000;
    assert(ea <= eb);
    if ea == eb {
        assert(fa < fb);
        if ea > 0 {
            lemma_pow2_pos((ea - 1) as nat);
            lemma_mul_strict_inequality(
                (0x80_0000 + fa) as int,
                (0x80_0000 + fb) as int,
                pow2((ea - 1) as nat) as int,
            );
        }
    } else {
        let pb: int = pow2((eb - 1) as nat) as int;
        lemma_pow2_pos((eb - 1) as nat);
        lemma_mul_inequality(0x80_0000, (0x80_0000 + fb) as int, pb);
        if ea > 0 {
            let pa: int = pow2((ea - 1) as nat) as int;
            lemma_pow2_pos((ea - 1) as nat);
            lemma_mul_strict_inequality((0x80_0000 + fa) as int, 0x100_0000, pa);
            // Twice the power at ea - 1 is the power at ea, which is at most pb.
            lemma_pow2_adds((ea - 1) as nat, 1);
            lemma2_to64();
            if ea < eb - 1 {
                lemma_pow2_strictly_increases(ea, (eb - 1) as nat);
            }
            assert(0x100_0000 * pa == 0x80_0000 * (2 * pa));
            lemma_mul_inequality(2 * pa, pb, 0x80_0000);
            lemma_mul_is_commutative(0x80_0000, pb);
            lemma_mul_is_commutative(0x80_0000, 2 * pa);
        }
    }
}

impl Binary32 {
    /// Whether the sign bit is set. Negative zero has it set too.
    pub open spec fn signed(self) -> bool {
        self.bits >= 0x8000_0000
    }

    /// Exponent and fraction, without the sign.
    pub open spec fn field(self) -> nat {
        (self.bits % 0x8000_0000) as nat
    }

    /// Whether the pattern stands for no number at all.
    pub open spec fn nan(self) -> bool {
        self.field() > 0x7f80_0000
    }

    /// The number, in units of 2^-149.
    pub open spec fn value(self) -> int {
        if self.signed() {
            -(magnitude(self.field()) as int)
        } else {
            magnitude(self.field()) as int
        }
    }

    /// The hardware's `<`: false as soon as either side is not a number.
    pub open spec fn below(self, other: Self) -> bool {
        !self.nan() && !other.nan() && self.value() < other.value()
    }

    /// The hardware's `<=`.
    pub open spec fn at_most(self, other: Self) -> bool {
        !self.nan() && !other.nan() && self.value() <= other.value()
    }

    /// `self < other`.
    pub fn lt(self, other: Binary32) -> (r: bool)
        ensures
            r == self.below(other),
    {
        let fa: u32 = self.bits % 0x8000_0000;
        let fb: u32 = other.bits % 0x8000_0000;
        if fa > 0x7f80_0000 || fb > 0x7f80_0000 {
            return false;
        }
        proof {
            lemma_sides(fa as nat, fb as nat);
        }
        if self.bits >= 0x8000_0000 {
            if other.bits >= 0x8000_0000 {
                fb < fa
            } else {
                fa > 0 || fb > 0
            }
        } else if other.bits >= 0x8000_0000 {
            false
        } else {
            fa < fb
        }
    }

    /// `self <= other`.
    pub fn le(self, other: Binary32) -> (r: bool)
        ensures
            r == self.at_most(other),
    {
        let fa: u32 = self.bits % 0x8000_0000;
        let fb: u32 = other.bits % 0x8000_0000;
        if fa > 0x7f80_0000 || fb > 0x7f80_0000 {
            return false;
        }
        !other.lt(self)
    }

    /// The whole part of a number that is not negative, at most the largest
    /// `u32`; zero for a negative number and for what is no number. This is
    /// what a saturating conversion to `u32` gives.
    pub open spec fn whole(self) -> int {
        if self.nan() || self.value() < 0 {
            0
        } else if self.value() / one() > u32::MAX {
            u32::MAX as int
        } else {
            self.value() / one()
        }
    }

    /// The conversion to `u32`: towards zero, saturating at both ends.
    pub fn trunc_u32(self) -> (r: u32)
        ensures
            r == self.whole(),
    {
        let field: u32 = self.bits % 0x8000_0000;
        if field > 0x7f80_0000 {
            return 0;
        }
        proof {
            lemma_sides(field as nat, 0);
            lemma_pow2_pos(149);
        }
        if self.bits >= 0x8000_0000 {
            assert(0int / one() == 0) by {
                lemma_fundamental_div_mod_converse(0, one(), 0, 0);
            }
            return 0;
        }
        whole_of_field(field)
    }

    /// The largest whole number that is not above this one, kept to the range
    /// of `i32`; zero for what is no number.
    pub open spec fn floored(self) -> int {
        if self.nan() {
            0
        } else if self.value() / one() > i32::MAX {
            i32::MAX as int
        } else if self.value() / one() < i32::MIN {
            i32::MIN as int
        } else {
            self.value() / one()
        }
    }

    /// The conversion to a whole number downwards, saturating at both ends.
    pub fn floor_i32(self) -> (r: i32)
        ensures
            r == self.floored(),
    {
        let field: u32 = self.bits % 0x8000_0000;
        if field > 0x7f80_0000 {
            return 0;
        }
        let whole: u32 = whole_of_field(field);
        if self.bits < 0x8000_0000 {
            proof {
                lemma_pow2_pos(149);
                lemma_div_is_ordered(0, magnitude(field as nat) as int, one());
                assert(0int / one() == 0) by {
                    lemma_fundamental_div_mod_converse(0, one(), 0, 0);
                }
            }
            return if whole > 0x7fff_ffff {
                i32::MAX
            } else {
                whole as i32
            };
        }
        let exact: bool = field_is_whole(field);
        proof {
            lemma_pow2_pos(149);
            lemma_floor_of_opposite(magnitude(field as nat) as int, one());
        }
        if whole >= 0x8000_0000 {
            i32::MIN
        } else if exact {
            -(whole as i32)
        } else {
            -(whole as i32) - 1
        }
    }
}

/// Division downwards of a number and of its opposite.
proof fn lemma_floor_of_opposite(v: int, unit: int)
    requires
        0 <= v,
        0 < unit,
    ensures
        v % unit == 0 ==> (-v) / unit == -(v / unit),
        v % unit != 0 ==> (-v) / unit == -(v / unit) - 1,
{
    let q: int = v / unit;
    let r: int = v % unit;
    lemma_fundamental_div_mod(v, unit);
    assert(unit * (-q) == -(unit * q)) by (nonlinear_arith);
    assert(unit * (-q - 1) == -(unit * q) - unit) by (nonlinear_arith);
    if r == 0 {
        lemma_fundamental_div_mod_converse(-v, unit, -q, 0);
    } else {
        lemma_fundamental_div_mod_converse(-v, unit, -q - 1, unit - r);
    }
}

/// Whether an unsigned number has no fractional part.
fn field_is_whole(field: u32) -> (r: bool)
    requires
        field < 0x8000_0000,
    ensures
        r == (magnitude(field as nat) as int % one() == 0),
{
    let exponent: u32 = field / 0x80_0000;
    let significand: u32 = 0x80_0000 + field % 0x80_0000;
    proof {
        lemma_pow2_pos(149);
        lemma2_to64();
    }
    if exponent < 127 {
        proof {
            lemma_magnitude_increases(field as nat, 0x3f80_0000);
            lemma_pow2_adds(23, 126);
            lemma_fundamental_div_mod_converse(
                magnitude(field as nat) as int,
                one(),
                0,
                magnitude(field as nat) as int,
            );
            lemma_sides(field as nat, 0);
        }
        field == 0
    } else if exponent < 150 {
        let shift: u32 = 150 - exponent;
        proof {
            let s: int = significand as int;
            let k: int = pow2((exponent - 1) as nat) as int;
            let d: int = pow2(shift as nat) as int;
            lemma_pow2_pos((exponent - 1) as nat);
            lemma_pow2_pos(shift as nat);
            lemma_pow2_adds((exponent - 1) as nat, shift as nat);
            lemma_truncate_middle(s, k, d);
            lemma_mul_is_commutative(s, k);
            assert(k * (s % d) == 0 <==> s % d == 0) by (nonlinear_arith)
                requires
                    k > 0,
            ;
            if shift < 23 {
                lemma_pow2_strictly_increases(shift as nat, 23);
            }
            lemma_u32_shl_is_mul(1, shift);
        }
        significand % (1u32 << shift) == 0
    } else {
        proof {
            let s: int = significand as int;
            let d: int = pow2((exponent - 150) as nat) as int;
            lemma_pow2_pos((exponent - 150) as nat);
            lemma_pow2_adds(149, (exponent - 150) as nat);
            lemma_mul_is_associative(s, d, one());
            lemma_mul_is_commutative(d, one());
            lemma_mul_is_commutative(s * d, one());
            lemma_fundamental_div_mod_converse(s * d * one(), one(), s * d, 0);
        }
        true
    }
}

/// The whole part of an unsigned number, saturating.
fn whole_of_field(field: u32) -> (r: u32)
    requires
        field < 0x8000_0000,
    ensures
        magnitude(field as nat) as int / one() <= u32::MAX ==> r == magnitude(field as nat) as int
            / one(),
        magnitude(field as nat) as int / one() > u32::MAX ==> r == u32::MAX,
{
    let exponent: u32 = field / 0x80_0000;
    let significand: u32 = 0x80_0000 + field % 0x80_0000;
    proof {
        lemma_pow2_pos(149);
        lemma2_to64();
    }
    if exponent < 127 {
        proof {
            // 126 * 2^23 + 2^23 is the field of one itself.
            lemma_magnitude_increases(field as nat, 0x3f80_0000);
            lemma_pow2_adds(23, 126);
            lemma_fundamental_div_mod_converse(
                magnitude(field as nat) as int,
                one(),
                0,
                magnitude(field as nat) as int,
            );
        }
        0
    } else if exponent < 150 {
        let shift: u32 = 150 - exponent;
        proof {
            let s: int = significand as int;
            let k: int = pow2((exponent - 1) as nat) as int;
            let d: int = pow2(shift as nat) as int;
            lemma_pow2_pos((exponent - 1) as nat);
            lemma_pow2_pos(shift as nat);
            lemma_pow2_adds((exponent - 1) as nat, shift as nat);
            lemma_div_denominator(s * k, k, d);
            lemma_div_by_multiple(s, k);
            lemma_u32_shr_is_div(significand, shift);
            lemma_div_is_ordered(0, s, d);
        }
        significand >> shift
    } else if exponent < 159 {
        let shift: u32 = exponent - 150;
        proof {
            let s: int = significand as int;
            let d: int = pow2(shift as nat) as int;
            lemma_pow2_pos(shift as nat);
            lemma_pow2_adds(149, shift as nat);
            lemma_mul_is_associative(s, d, one());
            lemma_mul_is_commutative(d, one());
            lemma_div_by_multiple(s * d, one());
            assert(d <= 256);
            assert(s * d <= 0xff_ffff * 256) by (nonlinear_arith)
                requires
                    0 <= s <= 0xff_ffff,
                    0 < d <= 256,
            ;
            lemma_u32_shl_is_mul(significand, shift);
        }
        significand << shift
    } else {
        proof {
            let m: int = magnitude(field as nat) as int;
            if field > 0x4f80_0000 {
                lemma_magnitude_increases(0x4f80_0000, field as nat);
            }
            // 0x4f80_0000 is the field of 2^32.
            lemma_pow2_adds(23, 158);
            lemma_pow2_adds(32, 149);
            lemma_div_is_ordered(0x1_0000_0000 * one(), m, one());
            lemma_div_by_multiple(0x1_0000_0000, one());
        }
        u32::MAX
    }
}

/// Two fields compare as their magnitudes do, and only the zero field is zero.
proof fn lemma_sides(a: nat, b: nat)
    ensures
        a < b <==> magnitude(a) < magnitude(b),
        b < a <==> magnitude(b) < magnitude(a),
        a == 0 <==> magnitude(a) == 0,
        b == 0 <==> magnitude(b) == 0,
{
    assert(magnitude(0) == 0);
    if a < b {
        lemma_magnitude_increases(a, b);
    } else if b < a {
        lemma_magnitude_increases(b, a);
    }
    if a > 0 {
        lemma_magnitude_increases(0, a);
    }
    if b > 0 {
        lemma_magnitude_increases(0, b);
    }
}

/// The smallest patterns count by ones: the pattern is the size. From there on,
/// the next binade holds the same sizes doubled. The two together give the size
/// of every pattern.
pub proof fn law_binades_double(field: nat)
    ensures
        field < 0x100_0000 ==> magnitude(field) == field,
        field >= 0x80_0000 ==> magnitude(field + 0x80_0000) == 2 * magnitude(field),
{
    lemma2_to64();
    if field >= 0x80_0000 {
        let e: nat = field / 0x80_0000;
        let f: nat = field % 0x80_0000;
        lemma_pow2_adds((e - 1) as nat, 1);
        assert((field + 0x80_0000) / 0x80_0000 == e + 1);
        assert((field + 0x80_0000) % 0x80_0000 == f);
        let (a, p): (int, int) = ((0x80_0000 + f) as int, pow2((e - 1) as nat) as int);
        assert(a * (p * 2) == 2 * (a * p)) by (nonlinear_arith);
        if field < 0x100_0000 {
            assert(e == 1 && p == 1);
            assert(a * 1 == a) by (nonlinear_arith);
        }
    }
}

/// The upper half of the patterns are the negatives of the lower half, and what
/// lies above infinity in either half is no number.
pub proof fn law_halves_mirror(x: Binary32)
    ensures
        x.bits < 0x8000_0000 ==> x.value() == magnitude(x.bits as nat),
        x.bits >= 0x8000_0000 ==> x.value() == -(magnitude((x.bits - 0x8000_0000) as nat) as int),
        x.nan() <==> 0x7f80_0000 < x.bits < 0x8000_0000 || x.bits > 0xff80_0000,
{
}

/// The patterns of the whole numbers from 2^23 to 2^24 follow one another, which
/// fixes the unit.
pub proof fn law_whole_numbers_follow(k: u32)
    requires
        k < 0x80_0000,
    ensures
        (Binary32 { bits: (0x4b00_0000 + k) as u32 }).value() == (0x80_0000 + k) * one(),
{
    let f: nat = (0x4b00_0000 + k) as nat;
    assert(f / 0x80_0000 == 150);
    assert(f % 0x80_0000 == k);
}

/// Numbers are ordered as their patterns are: upwards where positive, downwards
/// where negative, and the negative ones first. The two zeros are equal, and
/// what is no number has no order at all.
pub proof fn law_order_is_that_of_patterns(a: Binary32, b: Binary32)
    ensures
        a.nan() || b.nan() ==> !a.below(b) && !a.at_most(b),
        !a.nan() && !b.nan() ==> {
            &&& a.at_most(b) <==> !b.below(a)
            &&& a.bits < 0x8000_0000 && b.bits < 0x8000_0000 ==> (a.below(b) <==> a.bits < b.bits)
            &&& a.bits >= 0x8000_0000 && b.bits >= 0x8000_0000 ==> (a.below(b) <==> b.bits < a.bits)
            &&& a.bits >= 0x8000_0000 && b.bits < 0x8000_0000 ==> (a.below(b) <==> !(a.bits
                == 0x8000_0000 && b.bits == 0))
            &&& a.bits < 0x8000_0000 && b.bits >= 0x8000_0000 ==> !a.below(b)
        },
{
    lemma_sides(a.field(), b.field());
    if a.field() < b.field() {
        lemma_magnitude_increases(a.field(), b.field());
    }
    if b.field() < a.field() {
        lemma_magnitude_increases(b.field(), a.field());
    }
}

/// The whole part of a number is the one whole number that is at most the number
/// while the next is not, within what a `u32` holds.
pub proof fn law_whole_part(x: Binary32)
    ensures
        x.nan() || x.value() < 0 ==> x.whole() == 0,
        !x.nan() && 0 <= x.value() < 0x1_0000_0000 * one() ==> x.whole() * one() <= x.value() < (
        x.whole() + 1) * one(),
        !x.nan() && x.value() >= 0x1_0000_0000 * one() ==> x.whole() == 0xffff_ffff,
        0 <= x.whole() <= 0xffff_ffff,
{
    lemma_pow2_pos(149);
    lemma_quotient(x.value(), 0x1_0000_0000);
    lemma_quotient(x.value(), 0);
}

/// A floored number is the one whole number that is at most the number while the
/// next is not, within what an `i32` holds.
pub proof fn law_floored_part(x: Binary32)
    ensures
        x.nan() ==> x.floored() == 0,
        !x.nan() && -0x8000_0000 * one() <= x.value() < 0x8000_0000 * one() ==> x.floored() * one()
            <= x.value() < (x.floored() + 1) * one(),
        !x.nan() && x.value() >= 0x8000_0000 * one() ==> x.floored() == 0x7fff_ffff,
        !x.nan() && x.value() < -0x8000_0000 * one() ==> x.floored() == -0x8000_0000,
{
    lemma_pow2_pos(149);
    lemma_quotient(x.value(), 0x8000_0000);
    lemma_quotient(x.value(), -0x8000_0000);
}

/// A quotient by the unit, and on which side of a whole number it lies.
proof fn lemma_quotient(v: int, k: int)
    ensures
        (v / one()) * one() <= v < (v / one() + 1) * one(),
        v / one() >= k <==> v >= k * one(),
{
    lemma_pow2_pos(149);
    lemma_fundamental_div_mod(v, one());
    let (u, q, r): (int, int, int) = (one(), v / one(), v % one());
    assert(u * q == q * u) by (nonlinear_arith);
    assert((q + 1) * u == q * u + u) by (nonlinear_arith);
    if q >= k {
        assert(q * u >= k * u) by (nonlinear_arith)
            requires
                q >= k,
                u > 0,
        ;
    } else {
        assert((q + 1) * u <= k * u) by (nonlinear_arith)
            requires
                q + 1 <= k,
                u > 0,
        ;
    }
}

} // verus!

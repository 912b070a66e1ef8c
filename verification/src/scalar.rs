//! Binary64 numbers held by their bit pattern.
//!
//! Positions, velocities, masses and cutoffs travel through the library as
//! opaque 64-bit patterns. What the library itself decides about them is
//! decided here: how two of them compare, and how integers are written into
//! and read back from a numeric buffer.

use vstd::arithmetic::power2::{
    lemma_pow2_adds, lemma_pow2_pos, lemma_pow2_strictly_increases, lemma_pow2_unfold, pow2,
};
use vstd::prelude::*;

verus! {

/// 2^52: the weight of the exponent field's lowest bit.
pub const FRACTION: u64 = 0x0010_0000_0000_0000;

/// 2^63: the sign bit.
pub const SIGN: u64 = 0x8000_0000_0000_0000;

/// The magnitude of an infinity; every greater magnitude is a NaN.
pub const INFINITE: u64 = 0x7FF0_0000_0000_0000;

/// An IEEE-754 binary64 number, by its bit pattern.
#[derive(Clone, Copy, PartialEq, Eq, Structural, Debug)]
pub struct Scalar {
    pub bits: u64,
}

/// Three coordinates.
pub type Vec3 = [Scalar; 3];

impl Scalar {
    pub open spec fn negative(self) -> bool {
        self.bits >= SIGN
    }

    /// The pattern without its sign bit.
    pub open spec fn magnitude(self) -> int {
        if self.negative() {
            self.bits - SIGN
        } else {
            self.bits as int
        }
    }

    pub open spec fn nan(self) -> bool {
        self.magnitude() > INFINITE
    }

    pub open spec fn exponent(self) -> int {
        self.magnitude() / FRACTION as int
    }

    pub open spec fn fraction(self) -> int {
        self.magnitude() % FRACTION as int
    }

    /// The absolute value in units of 2^-1074, the smallest positive number.
    /// An infinity counts as the power of two just above the greatest number.
    pub open spec fn units(self) -> nat {
        if self.exponent() == 0 {
            self.fraction() as nat
        } else {
            ((FRACTION + self.fraction()) * pow2((self.exponent() - 1) as nat)) as nat
        }
    }

    /// The value in units of 2^-1074.
    pub open spec fn value(self) -> int {
        if self.negative() {
            -(self.units() as int)
        } else {
            self.units() as int
        }
    }

    /// `self < other`: false as soon as one of them is a NaN.
    pub open spec fn below(self, other: Scalar) -> bool {
        !self.nan() && !other.nan() && self.value() < other.value()
    }

    /// `self >= other`: false as soon as one of them is a NaN.
    pub open spec fn at_least(self, other: Scalar) -> bool {
        !self.nan() && !other.nan() && self.value() >= other.value()
    }

    /// The integer part, rounded toward zero; a NaN has the integer part 0.
    pub open spec fn integer_part(self) -> int {
        if self.nan() {
            0
        } else if self.negative() {
            -((self.units() / pow2(1074)) as int)
        } else {
            (self.units() / pow2(1074)) as int
        }
    }

    /// Not an integer.
    pub open spec fn fractional(self) -> bool {
        !self.nan() && self.units() % pow2(1074) != 0
    }

    /// The least integer that is not below the number; 0 for a NaN.
    pub open spec fn ceiling(self) -> int {
        if self.fractional() && !self.negative() {
            self.integer_part() + 1
        } else {
            self.integer_part()
        }
    }

    /// The greatest integer that is not above the number; 0 for a NaN.
    pub open spec fn floor(self) -> int {
        if self.fractional() && self.negative() {
            self.integer_part() - 1
        } else {
            self.integer_part()
        }
    }

    /// The number is the integer `x`, with a plus sign where `x` is zero.
    pub open spec fn holds(self, x: int) -> bool {
        &&& !self.nan()
        &&& self.negative() == (x < 0)
        &&& self.value() == x * pow2(1074)
    }

    /// The number 0.
    #[verifier::allow_in_spec]
    pub fn zero() -> (r: Scalar)
        returns
            (Scalar { bits: 0 }),
    {
        Scalar { bits: 0 }
    }

    /// The number 1.
    #[verifier::allow_in_spec]
    pub fn one() -> (r: Scalar)
        returns
            (Scalar { bits: 0x3FF0_0000_0000_0000 }),
    {
        Scalar { bits: 0x3FF0_0000_0000_0000 }
    }

    /// The number 1/2.
    #[verifier::allow_in_spec]
    pub fn half() -> (r: Scalar)
        returns
            (Scalar { bits: 0x3FE0_0000_0000_0000 }),
    {
        Scalar { bits: 0x3FE0_0000_0000_0000 }
    }

    /// The number 2.
    #[verifier::allow_in_spec]
    pub fn two() -> (r: Scalar)
        returns
            (Scalar { bits: 0x4000_0000_0000_0000 }),
    {
        Scalar { bits: 0x4000_0000_0000_0000 }
    }

    /// The number 3.
    #[verifier::allow_in_spec]
    pub fn three() -> (r: Scalar)
        returns
            (Scalar { bits: 0x4008_0000_0000_0000 }),
    {
        Scalar { bits: 0x4008_0000_0000_0000 }
    }

    /// A billionth.
    #[verifier::allow_in_spec]
    pub fn nano() -> (r: Scalar)
        returns
            (Scalar { bits: 0x3E11_2E0B_E826_D695 }),
    {
        Scalar { bits: 0x3E11_2E0B_E826_D695 }
    }

    /// The number 4.
    #[verifier::allow_in_spec]
    pub fn four() -> (r: Scalar)
        returns
            (Scalar { bits: 0x4010_0000_0000_0000 }),
    {
        Scalar { bits: 0x4010_0000_0000_0000 }
    }

    /// The greatest finite number.
    #[verifier::allow_in_spec]
    pub fn greatest() -> (r: Scalar)
        returns
            (Scalar { bits: 0x7FEF_FFFF_FFFF_FFFF }),
    {
        Scalar { bits: 0x7FEF_FFFF_FFFF_FFFF }
    }

    /// The least finite number.
    #[verifier::allow_in_spec]
    pub fn least() -> (r: Scalar)
        returns
            (Scalar { bits: 0xFFEF_FFFF_FFFF_FFFF }),
    {
        Scalar { bits: 0xFFEF_FFFF_FFFF_FFFF }
    }

    /// The number -1.
    #[verifier::allow_in_spec]
    pub fn minus_one() -> (r: Scalar)
        returns
            (Scalar { bits: 0xBFF0_0000_0000_0000 }),
    {
        Scalar { bits: 0xBFF0_0000_0000_0000 }
    }

    /// `-self`: the sign bit flipped.
    pub open spec fn negated(self) -> Scalar {
        if self.negative() {
            Scalar { bits: (self.bits - SIGN) as u64 }
        } else {
            Scalar { bits: (self.bits + SIGN) as u64 }
        }
    }

    /// `-self`.
    pub fn neg(self) -> (r: Scalar)
        ensures
            r == self.negated(),
    {
        if self.bits >= SIGN {
            Scalar { bits: self.bits - SIGN }
        } else {
            Scalar { bits: self.bits + SIGN }
        }
    }

    /// `self` without its sign.
    pub open spec fn absolute(self) -> Scalar {
        Scalar { bits: self.magnitude() as u64 }
    }

    /// The absolute value.
    pub fn abs(self) -> (r: Scalar)
        ensures
            r == self.absolute(),
    {
        Scalar { bits: self.split().1 }
    }

    fn split(self) -> (r: (bool, u64))
        ensures
            r.0 == self.negative(),
            r.1 == self.magnitude(),
            r.1 < SIGN,
    {
        if self.bits >= SIGN {
            (true, self.bits - SIGN)
        } else {
            (false, self.bits)
        }
    }

    /// Whether the number is a NaN.
    pub fn is_nan(self) -> (r: bool)
        ensures
            r == self.nan(),
    {
        self.split().1 > INFINITE
    }

    /// `self < other`.
    pub fn lt(self, other: Scalar) -> (r: bool)
        ensures
            r == self.below(other),
    {
        let (sn, sm): (bool, u64) = self.split();
        let (on, om): (bool, u64) = other.split();
        proof {
            lemma_units_ordered(self, other);
            lemma_units_ordered(other, self);
        }
        if sm > INFINITE || om > INFINITE {
            false
        } else if sn {
            if on {
                om < sm
            } else {
                sm > 0 || om > 0
            }
        } else if on {
            false
        } else {
            sm < om
        }
    }

    /// `self >= other`.
    pub fn ge(self, other: Scalar) -> (r: bool)
        ensures
            r == self.at_least(other),
    {
        !self.is_nan() && !other.is_nan() && !self.lt(other)
    }

    /// The greater of two numbers; a NaN gives way to the other.
    pub open spec fn greater(self, other: Scalar) -> Scalar {
        if self.nan() || self.below(other) {
            other
        } else {
            self
        }
    }

    /// The greater of two numbers.
    pub fn max(self, other: Scalar) -> (r: Scalar)
        ensures
            r == self.greater(other),
    {
        if self.is_nan() || self.lt(other) {
            other
        } else {
            self
        }
    }

    /// The smaller of two numbers; a NaN gives way to the other.
    pub open spec fn smaller(self, other: Scalar) -> Scalar {
        if self.nan() || other.below(self) {
            other
        } else {
            self
        }
    }

    /// The smaller of two numbers.
    pub fn min(self, other: Scalar) -> (r: Scalar)
        ensures
            r == self.smaller(other),
    {
        if self.is_nan() || other.lt(self) {
            other
        } else {
            self
        }
    }

    /// The number brought into `low..=high`; a NaN stays.
    pub open spec fn clamped(self, low: Scalar, high: Scalar) -> Scalar {
        if self.below(low) {
            low
        } else if high.below(self) {
            high
        } else {
            self
        }
    }

    /// The number brought into `low..=high`.
    pub fn clamp(self, low: Scalar, high: Scalar) -> (r: Scalar)
        requires
            high.at_least(low),
        ensures
            r == self.clamped(low, high),
    {
        if self.lt(low) {
            low
        } else if high.lt(self) {
            high
        } else {
            self
        }
    }

    /// Whether the number is zero, of either sign.
    pub fn is_zero(self) -> (r: bool)
        ensures
            r == (self.magnitude() == 0),
    {
        self.split().1 == 0
    }

    /// An integer of at most 53 bits, exactly.
    pub fn from_u64(x: u64) -> (r: Scalar)
        requires
            x <= 2 * FRACTION,
        ensures
            r == int_word(x as int),
            r.holds(x as int),
    {
        if x == 0 {
            assert(0 * pow2(1074) == 0) by (nonlinear_arith);
            proof {
                lemma_holds_is_int_word(Scalar { bits: 0 }, 0);
            }
            return Scalar { bits: 0 };
        }
        let mut m: u64 = x;
        let mut e: u64 = 1075;
        if x == 2 * FRACTION {
            m = FRACTION;
            e = 1076;
            proof {
                lemma_pow2_unfold(1075);
                assert(m * pow2(1075) == x * pow2(1074)) by (nonlinear_arith)
                    requires
                        pow2(1075) == 2 * pow2(1074),
                        x == 2 * m,
                ;
            }
        }
        while e > 1023 && m < FRACTION
            invariant
                1023 <= e <= 1076,
                0 < x,
                m < 2 * FRACTION,
                m * pow2((e - 1) as nat) == x * pow2(1074),
            decreases e,
        {
            proof {
                let p: nat = pow2((e - 2) as nat);
                lemma_pow2_unfold((e - 1) as nat);
                assert((2 * m) * p == x * pow2(1074)) by (nonlinear_arith)
                    requires
                        pow2((e - 1) as nat) == 2 * p,
                        m * pow2((e - 1) as nat) == x * pow2(1074),
                ;
            }
            m = m * 2;
            e = e - 1;
        }
        proof {
            if m < FRACTION {
                lemma_pow2_fraction();
                lemma_pow2_adds(1022, 52);
                lemma_pow2_pos(1022);
                let p: nat = pow2(1022);
                assert(m >= FRACTION) by (nonlinear_arith)
                    requires
                        m * p == x * (p * FRACTION),
                        x > 0,
                        p > 0,
                ;
            }
        }
        let r: Scalar = Scalar { bits: e * FRACTION + (m - FRACTION) };
        proof {
            assert(r.exponent() == e && r.fraction() == m - FRACTION) by {
                assert(r.magnitude() == e * FRACTION + (m - FRACTION));
            }
            lemma_holds_is_int_word(r, x as int);
        }
        r
    }

    /// A 32-bit signed integer, exactly.
    pub fn from_i32(x: i32) -> (r: Scalar)
        ensures
            r == int_word(x as int),
            r.holds(x as int),
    {
        let a: u64 = if x < 0 {
            (-(x as i64)) as u64
        } else {
            x as u64
        };
        let r: Scalar = Scalar::from_u64(a);
        if x < 0 {
            let n: Scalar = Scalar { bits: r.bits + SIGN };
            proof {
                assert(n.magnitude() == r.magnitude());
                assert(n.units() == r.units());
                assert(-(a * pow2(1074)) == x * pow2(1074)) by (nonlinear_arith)
                    requires
                        a == -x,
                ;
                lemma_holds_is_int_word(n, x as int);
            }
            n
        } else {
            r
        }
    }

    /// The integer part of the absolute value, at most `u64::MAX`.
    fn whole_magnitude(self) -> (r: u64)
        requires
            !self.nan(),
        ensures
            r as int == least_int((self.units() / pow2(1074)) as int, u64::MAX as int),
    {
        let (_, a): (bool, u64) = self.split();
        let e: u64 = a / FRACTION;
        let f: u64 = a % FRACTION;
        let ghost one: nat = pow2(1074);
        proof {
            lemma_pow2_pos(1074);
        }
        if e < 1023 {
            proof {
                assert(self.units() < one) by {
                    lemma_units_bound(self);
                    lemma_pow2_fraction();
                    if e == 0 {
                        lemma_pow2_strictly_increases(52, 1074);
                    } else {
                        lemma_pow2_adds((e - 1) as nat, 53);
                        lemma_pow2_unfold(53);
                        if e + 52 < 1074 {
                            lemma_pow2_strictly_increases((e + 52) as nat, 1074);
                        }
                    }
                }
                vstd::arithmetic::div_mod::lemma_basic_div(self.units() as int, one as int);
            }
            return 0;
        }
        let m: u64 = FRACTION + f;
        if e > 1075 {
            if e >= 1087 {
                proof {
                    lemma_pow2_fraction();
                    lemma_pow2_adds(1074, (e - 1075) as nat);
                    lemma_pow2_adds(12, (e - 1087) as nat);
                    lemma_pow2_pos((e - 1087) as nat);
                    lemma_pow2_twelve();
                    let q: nat = pow2((e - 1075) as nat);
                    let rest: nat = pow2((e - 1087) as nat);
                    assert(m * q > u64::MAX) by (nonlinear_arith)
                        requires
                            q == 4096 * rest,
                            rest >= 1,
                            m >= 0x0010_0000_0000_0000,
                    ;
                    assert(m * (one * q) == one * (m * q)) by (nonlinear_arith);
                    vstd::arithmetic::div_mod::lemma_div_multiples_vanish((m * q) as int, one as int);
                }
                return u64::MAX;
            }
            let mut w: u64 = m;
            let mut k: u64 = e;
            proof {
                lemma_pow2_small(0);
            }
            while k > 1075
                invariant
                    1075 <= k <= 1086,
                    w < 2 * FRACTION * pow2((e - k) as nat),
                    e <= 1086,
                    k <= e,
                    w * pow2((k - 1) as nat) == self.units(),
                decreases k,
            {
                proof {
                    let g: nat = (e - k) as nat;
                    lemma_pow2_small(g);
                    lemma_pow2_unfold((g + 1) as nat);
                    lemma_pow2_unfold((k - 1) as nat);
                    let p: nat = pow2((k - 2) as nat);
                    assert((2 * w) * p == self.units()) by (nonlinear_arith)
                        requires
                            pow2((k - 1) as nat) == 2 * p,
                            w * pow2((k - 1) as nat) == self.units(),
                    ;
                    assert(w < 2 * FRACTION * 1024) by (nonlinear_arith)
                        requires
                            w < 2 * FRACTION * pow2(g),
                            pow2(g) <= 1024,
                    ;
                    assert(2 * w < 2 * FRACTION * pow2((g + 1) as nat)) by (nonlinear_arith)
                        requires
                            w < 2 * FRACTION * pow2(g),
                            pow2((g + 1) as nat) == 2 * pow2(g),
                    ;
                }
                w = w * 2;
                k = k - 1;
            }
            proof {
                assert(w * one == one * w) by (nonlinear_arith);
                vstd::arithmetic::div_mod::lemma_div_multiples_vanish(w as int, one as int);
            }
            return w;
        }
        let mut w: u64 = m;
        let mut k: u64 = 1075 - e;
        proof {
            let d: nat = pow2(k as nat);
            lemma_pow2_pos(k as nat);
            lemma_pow2_adds((e - 1) as nat, k as nat);
            lemma_pow2_pos((e - 1) as nat);
            let p: nat = pow2((e - 1) as nat);
            assert(self.units() == p * m) by (nonlinear_arith)
                requires
                    self.units() == m * p,
            ;
            lemma_cancel_div(m as int, p as int, d as int);
        }
        while k > 0
            invariant
                k <= 52,
                w as int / pow2(k as nat) as int == self.units() as int / one as int,
            decreases k,
        {
            proof {
                let d: nat = pow2((k - 1) as nat);
                lemma_pow2_pos((k - 1) as nat);
                lemma_pow2_unfold(k as nat);
                vstd::arithmetic::div_mod::lemma_div_denominator(w as int, 2, d as int);
            }
            w = w / 2;
            k = k - 1;
        }
        proof {
            lemma_pow2_small(0);
            assert(w as int / 1 == w);
        }
        w
    }

    /// The integer part, brought into the range of a `u64`.
    pub fn to_u64(self) -> (r: u64)
        ensures
            r == clamp_int(self.integer_part(), 0, u64::MAX as int),
    {
        proof {
            lemma_pow2_pos(1074);
            vstd::arithmetic::div_mod::lemma_div_pos_is_pos(self.units() as int, pow2(1074) as int);
        }
        if self.is_nan() || self.split().0 {
            0
        } else {
            self.whole_magnitude()
        }
    }

    /// The integer part, brought into the range of a `u32`.
    pub fn to_u32(self) -> (r: u32)
        ensures
            r == clamp_int(self.integer_part(), 0, u32::MAX as int),
    {
        let w: u64 = self.to_u64();
        if w > 0xFFFF_FFFF {
            u32::MAX
        } else {
            w as u32
        }
    }

    /// The integer part, brought into the range of a `usize`.
    pub fn to_usize(self) -> (r: usize)
        ensures
            r == clamp_int(self.integer_part(), 0, usize::MAX as int),
    {
        let w: u64 = self.to_u64();
        if w > usize::MAX as u64 {
            usize::MAX
        } else {
            w as usize
        }
    }

    /// The integer part, brought into the range of an `i32`.
    pub fn to_i32(self) -> (r: i32)
        ensures
            r == clamp_int(self.integer_part(), i32::MIN as int, i32::MAX as int),
    {
        if self.is_nan() {
            return 0;
        }
        let w: u64 = self.whole_magnitude();
        proof {
            lemma_pow2_pos(1074);
            vstd::arithmetic::div_mod::lemma_div_pos_is_pos(self.units() as int, pow2(1074) as int);
        }
        if self.split().0 {
            if w >= 0x8000_0000 {
                i32::MIN
            } else {
                -(w as i32)
            }
        } else if w > 0x7FFF_FFFF {
            i32::MAX
        } else {
            w as i32
        }
    }

    /// Whether the number is not an integer.
    pub fn has_fraction(self) -> (r: bool)
        ensures
            r == self.fractional(),
    {
        if self.is_nan() {
            return false;
        }
        let a: Scalar = self.abs();
        let w: u64 = a.to_u64();
        proof {
            lemma_pow2_pos(1074);
            let one: int = pow2(1074) as int;
            let u: int = self.units() as int;
            assert(a.magnitude() == self.magnitude());
            assert(a.units() == self.units());
            vstd::arithmetic::div_mod::lemma_fundamental_div_mod(u, one);
            vstd::arithmetic::div_mod::lemma_mod_bound(u, one);
            vstd::arithmetic::div_mod::lemma_div_pos_is_pos(u, one);
            if w >= 2 * FRACTION {
                lemma_large_is_whole(self);
            } else {
                let q: int = u / one;
                assert(q == w);
                assert(one * q == q * one) by (nonlinear_arith);
            }
        }
        if w >= 2 * FRACTION {
            return false;
        }
        Scalar::from_u64(w).lt(a)
    }

    /// The ceiling, brought into the range of an `i32`.
    pub fn ceil_i32(self) -> (r: i32)
        ensures
            r == clamp_int(self.ceiling(), i32::MIN as int, i32::MAX as int),
    {
        let t: i32 = self.to_i32();
        proof {
            self.lemma_integer_sign();
        }
        if t < i32::MAX && self.has_fraction() && !self.split().0 {
            t + 1
        } else {
            t
        }
    }

    /// The floor, brought into the range of an `i32`.
    pub fn floor_i32(self) -> (r: i32)
        ensures
            r == clamp_int(self.floor(), i32::MIN as int, i32::MAX as int),
    {
        let t: i32 = self.to_i32();
        proof {
            self.lemma_integer_sign();
        }
        if t > i32::MIN && self.has_fraction() && self.split().0 {
            t - 1
        } else {
            t
        }
    }

    proof fn lemma_integer_sign(self)
        ensures
            self.negative() ==> self.integer_part() <= 0,
            !self.negative() ==> self.integer_part() >= 0,
    {
        lemma_pow2_pos(1074);
        vstd::arithmetic::div_mod::lemma_div_pos_is_pos(self.units() as int, pow2(1074) as int);
    }
}

/// A number of at least 2^53 is an integer.
proof fn lemma_large_is_whole(a: Scalar)
    requires
        !a.nan(),
        a.units() / pow2(1074) >= 2 * FRACTION,
    ensures
        a.units() % pow2(1074) == 0,
{
    let one: int = pow2(1074) as int;
    lemma_pow2_pos(1074);
    lemma_units_bound(a);
    let e: int = a.exponent();
    let m: int = FRACTION + a.fraction();
    if e <= 1075 {
        // Below 2^53 in value.
        if e == 0 {
            lemma_pow2_fraction();
            lemma_pow2_strictly_increases(52, 1074);
            vstd::arithmetic::div_mod::lemma_basic_div(a.units() as int, one);
        } else {
            let p: nat = pow2((e - 1) as nat);
            if e < 1075 {
                lemma_pow2_strictly_increases((e - 1) as nat, 1074);
            }
            assert(a.units() < (2 * FRACTION) * one) by (nonlinear_arith)
                requires
                    a.units() < 2 * FRACTION * p,
                    p <= one,
            ;
            assert((2 * FRACTION) * one == one * (2 * FRACTION)) by (nonlinear_arith);
            vstd::arithmetic::div_mod::lemma_multiply_divide_lt(
                a.units() as int,
                one,
                2 * FRACTION as int,
            );
        }
    } else {
        lemma_pow2_adds(1074, (e - 1075) as nat);
        let q: nat = pow2((e - 1075) as nat);
        assert(m * (one * q) == (m * q) * one) by (nonlinear_arith);
        vstd::arithmetic::div_mod::lemma_mod_multiples_basic(m * q, one);
    }
}

/// The number that is the integer `x`.
pub open spec fn int_word(x: int) -> Scalar {
    choose|r: Scalar| #[trigger] r.holds(x)
}

/// An arithmetic operation. All take three operands: an operation on fewer is
/// given its last one again.
#[derive(Clone, Copy, PartialEq, Eq, Structural, Debug)]
pub enum Op {
    Add,
    Sub,
    Mul,
    Div,
    Sqrt,
    MulAdd,
}

/// The machine's arithmetic: `f` answers every operation on all numbers,
/// always the same way.
pub open spec fn is_arithmetic<F: Fn(Op, Scalar, Scalar, Scalar) -> Scalar>(f: F) -> bool {
    &&& forall|op: Op, a: Scalar, b: Scalar, c: Scalar| #[trigger] f.requires((op, a, b, c))
    &&& forall|op: Op, a: Scalar, b: Scalar, c: Scalar, r: Scalar, s: Scalar| #[trigger]
        f.ensures((op, a, b, c), r) && #[trigger] f.ensures((op, a, b, c), s) ==> r == s
}

/// What the machine's arithmetic answers.
pub open spec fn calc<F: Fn(Op, Scalar, Scalar, Scalar) -> Scalar>(
    f: F,
    op: Op,
    a: Scalar,
    b: Scalar,
    c: Scalar,
) -> Scalar {
    choose|r: Scalar| f.ensures((op, a, b, c), r)
}

pub open spec fn sum<F: Fn(Op, Scalar, Scalar, Scalar) -> Scalar>(f: F, a: Scalar, b: Scalar) -> Scalar {
    calc(f, Op::Add, a, b, b)
}

pub open spec fn difference<F: Fn(Op, Scalar, Scalar, Scalar) -> Scalar>(f: F, a: Scalar, b: Scalar) -> Scalar {
    calc(f, Op::Sub, a, b, b)
}

pub open spec fn product<F: Fn(Op, Scalar, Scalar, Scalar) -> Scalar>(f: F, a: Scalar, b: Scalar) -> Scalar {
    calc(f, Op::Mul, a, b, b)
}

pub open spec fn quotient<F: Fn(Op, Scalar, Scalar, Scalar) -> Scalar>(f: F, a: Scalar, b: Scalar) -> Scalar {
    calc(f, Op::Div, a, b, b)
}

pub open spec fn root<F: Fn(Op, Scalar, Scalar, Scalar) -> Scalar>(f: F, a: Scalar) -> Scalar {
    calc(f, Op::Sqrt, a, a, a)
}

/// `a * b + c` with one rounding.
pub open spec fn fused<F: Fn(Op, Scalar, Scalar, Scalar) -> Scalar>(
    f: F,
    a: Scalar,
    b: Scalar,
    c: Scalar,
) -> Scalar {
    calc(f, Op::MulAdd, a, b, c)
}

/// The sum as a function.
pub open spec fn summing<F: Fn(Op, Scalar, Scalar, Scalar) -> Scalar>(f: F) -> spec_fn(
    Scalar,
    Scalar,
) -> Scalar {
    |a: Scalar, b: Scalar| sum(f, a, b)
}

/// `a + b`.
pub fn plus<F: Fn(Op, Scalar, Scalar, Scalar) -> Scalar>(f: &F, a: Scalar, b: Scalar) -> (r: Scalar)
    requires
        is_arithmetic(*f),
    ensures
        r == sum(*f, a, b),
{
    f(Op::Add, a, b, b)
}

/// `a - b`.
pub fn minus<F: Fn(Op, Scalar, Scalar, Scalar) -> Scalar>(f: &F, a: Scalar, b: Scalar) -> (r: Scalar)
    requires
        is_arithmetic(*f),
    ensures
        r == difference(*f, a, b),
{
    f(Op::Sub, a, b, b)
}

/// `a * b`.
pub fn times<F: Fn(Op, Scalar, Scalar, Scalar) -> Scalar>(f: &F, a: Scalar, b: Scalar) -> (r: Scalar)
    requires
        is_arithmetic(*f),
    ensures
        r == product(*f, a, b),
{
    f(Op::Mul, a, b, b)
}

/// `a / b`.
pub fn over<F: Fn(Op, Scalar, Scalar, Scalar) -> Scalar>(f: &F, a: Scalar, b: Scalar) -> (r: Scalar)
    requires
        is_arithmetic(*f),
    ensures
        r == quotient(*f, a, b),
{
    f(Op::Div, a, b, b)
}

/// `a * b + c` with one rounding.
pub fn mul_add<F: Fn(Op, Scalar, Scalar, Scalar) -> Scalar>(f: &F, a: Scalar, b: Scalar, c: Scalar) -> (r:
    Scalar)
    requires
        is_arithmetic(*f),
    ensures
        r == fused(*f, a, b, c),
{
    f(Op::MulAdd, a, b, c)
}

/// The square root of `a`.
pub fn sqrt<F: Fn(Op, Scalar, Scalar, Scalar) -> Scalar>(f: &F, a: Scalar) -> (r: Scalar)
    requires
        is_arithmetic(*f),
    ensures
        r == root(*f, a),
{
    f(Op::Sqrt, a, a, a)
}

/// A count as a number. The counts that fit a number exactly are that number;
/// of a greater one the upper part is scaled and the lower part added, which
/// rounds once.
pub open spec fn count_word<F: Fn(Op, Scalar, Scalar, Scalar) -> Scalar>(f: F, x: int) -> Scalar {
    if x <= 2 * FRACTION {
        int_word(x)
    } else {
        sum(
            f,
            product(f, int_word(x / 0x1_0000_0000), int_word(0x1_0000_0000)),
            int_word(x % 0x1_0000_0000),
        )
    }
}

/// `x` as a number.
pub fn from_count<F: Fn(Op, Scalar, Scalar, Scalar) -> Scalar>(f: &F, x: u64) -> (r: Scalar)
    requires
        is_arithmetic(*f),
    ensures
        r == count_word(*f, x as int),
{
    if x <= 2 * FRACTION {
        Scalar::from_u64(x)
    } else {
        let high: Scalar = Scalar::from_u64(x / 0x1_0000_0000);
        let low: Scalar = Scalar::from_u64(x % 0x1_0000_0000);
        plus(f, times(f, high, Scalar::from_u64(0x1_0000_0000)), low)
    }
}

pub open spec fn least_int(a: int, b: int) -> int {
    if a <= b {
        a
    } else {
        b
    }
}

/// `x` brought into `lo..=hi`.
pub open spec fn clamp_int(x: int, lo: int, hi: int) -> int {
    if x < lo {
        lo
    } else if x > hi {
        hi
    } else {
        x
    }
}

pub proof fn lemma_pow2_fraction()
    ensures
        pow2(52) == FRACTION,
        pow2(53) == 2 * FRACTION,
{
    vstd::arithmetic::power2::lemma2_to64();
    vstd::arithmetic::power2::lemma2_to64_rest();
}

proof fn lemma_pow2_twelve()
    ensures
        pow2(12) == 4096,
{
    vstd::arithmetic::power2::lemma2_to64();
}

proof fn lemma_pow2_small(g: nat)
    requires
        g <= 10,
    ensures
        pow2(0) == 1,
        pow2(g) <= 1024,
{
    vstd::arithmetic::power2::lemma2_to64();
    if g < 10 {
        lemma_pow2_strictly_increases(g, 10);
    }
}

proof fn lemma_cancel_div(m: int, p: int, d: int)
    requires
        0 <= m,
        0 < p,
        0 < d,
    ensures
        (p * m) / (p * d) == m / d,
{
    assert(p * d > 0) by (nonlinear_arith)
        requires
            0 < p,
            0 < d,
    ;
    assert(p * m >= 0) by (nonlinear_arith)
        requires
            0 < p,
            0 <= m,
    ;
    vstd::arithmetic::div_mod::lemma_div_denominator(p * m, p, d);
    vstd::arithmetic::div_mod::lemma_div_multiples_vanish(m, p);
}

/// A number with exponent field `e` lies below the next power of two.
proof fn lemma_units_bound(a: Scalar)
    ensures
        a.exponent() == 0 ==> a.units() < FRACTION,
        a.exponent() > 0 ==> FRACTION * pow2((a.exponent() - 1) as nat) <= a.units() < 2 * FRACTION
            * pow2((a.exponent() - 1) as nat),
        a.exponent() >= 0,
        a.magnitude() == a.exponent() * FRACTION + a.fraction(),
        0 <= a.fraction() < FRACTION,
{
    if a.exponent() > 0 {
        let p: nat = pow2((a.exponent() - 1) as nat);
        lemma_pow2_pos((a.exponent() - 1) as nat);
        let f: int = a.fraction();
        assert(FRACTION * p <= (FRACTION + f) * p < 2 * FRACTION * p) by (nonlinear_arith)
            requires
                0 <= f < FRACTION,
                p > 0,
        ;
        assert((FRACTION + f) * p >= 0) by (nonlinear_arith)
            requires
                0 <= f,
                p > 0,
        ;
    }
}

/// Numbers of one sign are ordered as their patterns are.
pub proof fn lemma_units_ordered(a: Scalar, b: Scalar)
    ensures
        a.magnitude() < b.magnitude() ==> a.units() < b.units(),
        a.magnitude() == b.magnitude() ==> a.units() == b.units(),
        (a.units() == 0) == (a.magnitude() == 0),
{
    lemma_units_bound(a);
    lemma_units_bound(b);
    let ea: int = a.exponent();
    let eb: int = b.exponent();
    if ea > 0 {
        lemma_pow2_pos((ea - 1) as nat);
        assert(FRACTION * pow2((ea - 1) as nat) > 0) by (nonlinear_arith)
            requires
                pow2((ea - 1) as nat) > 0,
        ;
    }
    if a.magnitude() < b.magnitude() {
        if ea == eb {
            if ea > 0 {
                let p: nat = pow2((ea - 1) as nat);
                let (f, g): (int, int) = (a.fraction(), b.fraction());
                assert((FRACTION + f) * p < (FRACTION + g) * p) by (nonlinear_arith)
                    requires
                        f < g,
                        p > 0,
                ;
            }
        } else {
            assert(ea < eb);
            let pb: nat = pow2((eb - 1) as nat);
            lemma_pow2_pos((eb - 1) as nat);
            if ea == 0 {
                assert(FRACTION <= FRACTION * pb) by (nonlinear_arith)
                    requires
                        pb >= 1,
                ;
            } else {
                let pa: nat = pow2((ea - 1) as nat);
                lemma_pow2_unfold(ea as nat);
                if ea < eb - 1 {
                    lemma_pow2_strictly_increases(ea as nat, (eb - 1) as nat);
                }
                assert(2 * FRACTION * pa <= FRACTION * pb) by (nonlinear_arith)
                    requires
                        2 * pa <= pb,
                ;
            }
        }
    }
}

/// No two numbers hold the same integer.
proof fn lemma_holds_is_int_word(r: Scalar, x: int)
    requires
        r.holds(x),
    ensures
        r == int_word(x),
{
    let s: Scalar = int_word(x);
    assert(s.holds(x));
    lemma_units_ordered(r, s);
    lemma_units_ordered(s, r);
    lemma_units_bound(r);
    lemma_units_bound(s);
}

/// Every integer of at most 53 bits is a number.
pub proof fn lemma_integer_exists(x: int)
    requires
        0 <= x <= 2 * FRACTION,
    ensures
        int_word(x).holds(x),
{
    let r: Scalar = int_pattern(x as nat, 1075);
    if x == 0 {
        assert(0 * pow2(1074) == 0) by (nonlinear_arith);
        assert(Scalar { bits: 0 }.holds(0));
    } else if x == 2 * FRACTION {
        lemma_pow2_unfold(1075);
        let s: Scalar = Scalar { bits: (1076 * FRACTION) as u64 };
        assert(s.exponent() == 1076 && s.fraction() == 0);
        assert(FRACTION * pow2(1075) == x * pow2(1074)) by (nonlinear_arith)
            requires
                pow2(1075) == 2 * pow2(1074),
                x == 2 * FRACTION,
        ;
        assert(s.holds(x));
    } else {
        lemma_int_pattern(x as nat, 1075, x);
        assert(r.holds(x));
    }
}

/// So is its negative.
pub proof fn lemma_signed_exists(x: int)
    requires
        -2 * FRACTION <= x <= 2 * FRACTION,
    ensures
        int_word(x).holds(x),
{
    if x >= 0 {
        lemma_integer_exists(x);
    } else {
        lemma_integer_exists(-x);
        let r: Scalar = int_word(-x);
        let n: Scalar = Scalar { bits: (r.bits + SIGN) as u64 };
        assert(n.magnitude() == r.magnitude());
        assert(n.units() == r.units());
        assert(-((-x) * pow2(1074)) == x * pow2(1074)) by (nonlinear_arith);
        assert(n.holds(x));
    }
}

/// The pattern of `m` times two to the `e - 1075`, normalised.
spec fn int_pattern(m: nat, e: nat) -> Scalar
    decreases e,
{
    if m >= FRACTION || e <= 1023 {
        Scalar { bits: (e * FRACTION + (m - FRACTION)) as u64 }
    } else {
        int_pattern(2 * m, (e - 1) as nat)
    }
}

proof fn lemma_int_pattern(m: nat, e: nat, x: int)
    requires
        0 < x,
        0 < m < 2 * FRACTION,
        1023 <= e <= 1075,
        m * pow2((e - 1) as nat) == x * pow2(1074),
    ensures
        int_pattern(m, e).holds(x),
    decreases e,
{
    if m < FRACTION && e > 1023 {
        let p: nat = pow2((e - 2) as nat);
        lemma_pow2_unfold((e - 1) as nat);
        assert((2 * m) * p == x * pow2(1074)) by (nonlinear_arith)
            requires
                pow2((e - 1) as nat) == 2 * p,
                m * pow2((e - 1) as nat) == x * pow2(1074),
        ;
        lemma_int_pattern(2 * m, (e - 1) as nat, x);
    } else {
        if m < FRACTION {
            lemma_pow2_fraction();
            lemma_pow2_adds(1022, 52);
            lemma_pow2_pos(1022);
            let p: nat = pow2(1022);
            assert(m >= FRACTION) by (nonlinear_arith)
                requires
                    m * p == x * (p * FRACTION),
                    x > 0,
                    p > 0,
            ;
        }
        let r: Scalar = int_pattern(m, e);
        assert(r.magnitude() == e * FRACTION + (m - FRACTION));
        assert(r.exponent() == e && r.fraction() == m - FRACTION);
    }
}

/// An integer written into a number and read back is unchanged.
pub proof fn lemma_integer_round_trip(r: Scalar, x: int)
    requires
        r.holds(x),
    ensures
        r.integer_part() == x,
{
    lemma_pow2_pos(1074);
    let p: int = pow2(1074) as int;
    let a: int = if x < 0 {
        -x
    } else {
        x
    };
    assert(r.units() == p * a) by (nonlinear_arith)
        requires
            r.units() == if x < 0 {
                -(x * p)
            } else {
                x * p
            },
            a == if x < 0 {
                -x
            } else {
                x
            },
    ;
    vstd::arithmetic::div_mod::lemma_div_multiples_vanish(a, p);
}

/// Of two numbers that are no NaNs, exactly one is the smaller unless their values agree.
pub proof fn order_is_total(a: Scalar, b: Scalar)
    requires
        !a.nan(),
        !b.nan(),
    ensures
        a.below(b) || b.below(a) || a.value() == b.value(),
        !(a.below(b) && b.below(a)),
{
}

} // verus!

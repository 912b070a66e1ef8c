//! The numbers as reals, and operations that are carried out without rounding.

use crate::scalar::{
    difference, lemma_pow2_fraction, product, quotient, root, sum, Op, Scalar, FRACTION,
};
use vstd::arithmetic::power2::*;
use vstd::prelude::*;

verus! {

/// The real number that a scalar stands for.
pub open spec fn num(x: Scalar) -> real {
    x.value() as real / unit()
}

/// The number of the least positive scalars that make one.
pub open spec fn unit() -> real {
    pow2(1074) as int as real
}

/// `r` is a number and has this value.
pub open spec fn is_num(r: Scalar, x: real) -> bool {
    !r.nan() && num(r) == x
}

/// The operation gives the sum, without rounding.
pub open spec fn exact_sum<F: Fn(Op, Scalar, Scalar, Scalar) -> Scalar>(ar: F, a: Scalar, b: Scalar) -> bool {
    is_num(sum(ar, a, b), num(a) + num(b))
}

pub open spec fn exact_difference<F: Fn(Op, Scalar, Scalar, Scalar) -> Scalar>(ar: F, a: Scalar, b: Scalar) -> bool {
    is_num(difference(ar, a, b), num(a) - num(b))
}

pub open spec fn exact_product<F: Fn(Op, Scalar, Scalar, Scalar) -> Scalar>(ar: F, a: Scalar, b: Scalar) -> bool {
    is_num(product(ar, a, b), num(a) * num(b))
}

pub open spec fn exact_quotient<F: Fn(Op, Scalar, Scalar, Scalar) -> Scalar>(ar: F, a: Scalar, b: Scalar) -> bool {
    num(b) != 0real && is_num(quotient(ar, a, b), num(a) / num(b))
}

pub open spec fn exact_root<F: Fn(Op, Scalar, Scalar, Scalar) -> Scalar>(ar: F, a: Scalar) -> bool {
    let r = root(ar, a);
    !r.nan() && num(r) >= 0real && num(r) * num(r) == num(a)
}

proof fn lemma_unit_is_positive()
    ensures
        unit() > 0real,
{
    lemma_pow2_pos(1074);
}

/// `a * (b + c)` is `a * b + a * c`.
pub proof fn lemma_mul_add(a: real, b: real, c: real)
    ensures
        a * (b + c) == a * b + a * c,
        (b + c) * a == b * a + c * a,
{
    assert(a * (b + c) == a * b + a * c) by (nonlinear_arith);
    assert((b + c) * a == b * a + c * a) by (nonlinear_arith);
}

/// What was divided by `b` and multiplied by it is as it was.
pub proof fn lemma_divided(a: real, b: real)
    requires
        b != 0real,
    ensures
        (a / b) * b == a,
{
    assert((a / b) * b == a) by (nonlinear_arith)
        requires
            b != 0real,
    ;
}

/// The order and the grouping of factors do not matter.
pub proof fn lemma_mul_order(a: real, b: real, c: real)
    ensures
        a * b == b * a,
        (a * b) * c == a * (b * c),
{
    assert(a * b == b * a) by (nonlinear_arith);
    assert((a * b) * c == a * (b * c)) by (nonlinear_arith);
}

/// Scalars are ordered as the reals that they stand for.
pub proof fn lemma_order(a: Scalar, b: Scalar)
    ensures
        !a.nan() && !b.nan() ==> (a.below(b) <==> num(a) < num(b)),
        !a.nan() && !b.nan() ==> (a.at_least(b) <==> num(a) >= num(b)),
{
    lemma_unit_is_positive();
    let u: real = unit();
    let x: real = a.value() as real;
    let y: real = b.value() as real;
    assert((x < y) == (x / u < y / u)) by (nonlinear_arith)
        requires
            u > 0real,
    ;
}

proof fn lemma_cast_product(a: int, b: int)
    ensures
        (a * b) as real == a as real * b as real,
    decreases
        if a < 0 {
            -a
        } else {
            a
        },
{
    let y: real = b as real;
    if a > 0 {
        lemma_cast_product(a - 1, b);
        let x: real = (a - 1) as real;
        assert(a * b == (a - 1) * b + b) by (nonlinear_arith);
        assert((x + 1real) * y == x * y + y) by (nonlinear_arith);
    } else if a < 0 {
        lemma_cast_product(a + 1, b);
        let x: real = (a + 1) as real;
        assert(a * b == (a + 1) * b - b) by (nonlinear_arith);
        assert((x - 1real) * y == x * y - y) by (nonlinear_arith);
    } else {
        assert(0 * b == 0);
        assert(0real * y == 0real);
    }
}

/// An integer stands for itself.
pub proof fn lemma_whole(r: Scalar, x: int)
    requires
        r.holds(x),
    ensures
        is_num(r, x as real),
{
    lemma_unit_is_positive();
    let u: real = unit();
    let y: real = x as real;
    assert(r.value() == x * pow2(1074) as int);
    lemma_cast_product(x, pow2(1074) as int);
    assert((y * u) / u == y) by (nonlinear_arith)
        requires
            u > 0real,
    ;
}

/// The sign bit is the sign.
pub proof fn lemma_negated(x: Scalar)
    ensures
        num(x.negated()) == -num(x),
        x.negated().nan() == x.nan(),
{
    let y: Scalar = x.negated();
    assert(y.magnitude() == x.magnitude());
    assert(y.units() == x.units());
    assert(y.value() == -x.value());
    lemma_unit_is_positive();
    let u: real = unit();
    let v: real = x.value() as real;
    assert((-v) / u == -(v / u)) by (nonlinear_arith)
        requires
            u > 0real,
    ;
}

/// Nothing over the unit is nothing.
pub proof fn lemma_zero_over_unit()
    ensures
        0int as real / unit() == 0real,
{
    lemma_unit_is_positive();
    let u: real = unit();
    assert(0real / u == 0real) by (nonlinear_arith)
        requires
            u > 0real,
    ;
}

/// A negative number has its sign bit set.
pub proof fn lemma_sign(x: Scalar)
    ensures
        num(x) < 0real ==> x.negative(),
        num(x) > 0real ==> !x.negative(),
        num(x) == 0real ==> x.value() == 0,
{
    lemma_unit_is_positive();
    let u: real = unit();
    let v: real = x.value() as real;
    assert(v > 0real ==> v / u > 0real) by (nonlinear_arith)
        requires
            u > 0real,
    ;
    assert(v < 0real ==> v / u < 0real) by (nonlinear_arith)
        requires
            u > 0real,
    ;
    assert(v == 0real ==> v / u == 0real) by (nonlinear_arith)
        requires
            u > 0real,
    ;
}

/// The constants are the numbers they are named after.
pub proof fn lemma_constants()
    ensures
        is_num(Scalar::zero(), 0real),
        is_num(Scalar::one(), 1real),
        is_num(Scalar::minus_one(), -1real),
        num(Scalar::half()) + num(Scalar::half()) == 1real,
        !Scalar::half().nan(),
{
    let (zero, one, half): (Scalar, Scalar, Scalar) = (
        Scalar::zero(),
        Scalar::one(),
        Scalar::half(),
    );
    lemma_unit_is_positive();
    let u: real = unit();
    assert(zero.magnitude() == 0);
    assert(0real / u == 0real) by (nonlinear_arith)
        requires
            u > 0real,
    ;
    assert(one.magnitude() == 0x3FF0_0000_0000_0000);
    assert(one.exponent() == 1023 && one.fraction() == 0);
    lemma_pow2_fraction();
    lemma_pow2_adds(52, 1022);
    assert(one.units() == pow2(1074));
    assert(u / u == 1real) by (nonlinear_arith)
        requires
            u > 0real,
    ;
    assert(half.magnitude() == 0x3FE0_0000_0000_0000);
    assert(half.exponent() == 1022 && half.fraction() == 0);
    lemma_pow2_adds(52, 1021);
    lemma_pow2_unfold(1074);
    assert(half.units() == pow2(1073));
    let h: real = pow2(1073) as int as real;
    assert(h / u + h / u == 1real) by (nonlinear_arith)
        requires
            u > 0real,
            h + h == u,
    ;
    assert(Scalar::minus_one() == one.negated());
    lemma_negated(one);
}

/// A count of units is its whole ones and a rest below one.
proof fn lemma_whole_units(v: int)
    requires
        v >= 0,
    ensures
        ({
            let q: int = v / (pow2(1074) as int);
            let x: real = v as real / unit();
            &&& q as real <= x < q as real + 1real
            &&& v % (pow2(1074) as int) == 0 ==> x == q as real
        }),
{
    lemma_pow2_pos(1074);
    lemma_unit_is_positive();
    let p: int = pow2(1074) as int;
    let u: real = unit();
    let q: int = v / p;
    let r: int = v % p;
    vstd::arithmetic::div_mod::lemma_fundamental_div_mod(v, p);
    vstd::arithmetic::div_mod::lemma_mod_bound(v, p);
    assert(p * q == q * p) by (nonlinear_arith);
    lemma_cast_product(q, p);
    let (a, b, x): (real, real, real) = (q as real, r as real, v as real);
    assert(x == a * u + b);
    assert(x / u == a + b / u) by (nonlinear_arith)
        requires
            u > 0real,
            x == a * u + b,
    ;
    assert(0real <= b / u) by (nonlinear_arith)
        requires
            u > 0real,
            b >= 0real,
    ;
    assert(b / u < 1real) by (nonlinear_arith)
        requires
            u > 0real,
            b < u,
    ;
    if r == 0 {
        lemma_zero_over_unit();
    }
}

/// A number lies between the integers that it is rounded down and up to.
pub proof fn lemma_rounded(x: Scalar)
    requires
        !x.nan(),
    ensures
        x.floor() as real <= num(x) < x.floor() as real + 1real,
        x.ceiling() as real - 1real < num(x) <= x.ceiling() as real,
{
    let v: int = x.units() as int;
    lemma_whole_units(v);
    lemma_pow2_pos(1074);
    lemma_unit_is_positive();
    let u: real = unit();
    let w: real = v as real;
    assert((-w) / u == -(w / u)) by (nonlinear_arith)
        requires
            u > 0real,
    ;
    let q: int = v / (pow2(1074) as int);
    assert((x.units() / pow2(1074)) as int == q);
    assert((x.units() % pow2(1074)) as int == v % (pow2(1074) as int));
    if v % (pow2(1074) as int) != 0 {
        lemma_not_whole(v);
    }
}

proof fn lemma_not_whole(v: int)
    requires
        v >= 0,
        v % (pow2(1074) as int) != 0,
    ensures
        v as real / unit() > (v / (pow2(1074) as int)) as real,
{
    lemma_pow2_pos(1074);
    lemma_unit_is_positive();
    let p: int = pow2(1074) as int;
    let u: real = unit();
    let q: int = v / p;
    vstd::arithmetic::div_mod::lemma_fundamental_div_mod(v, p);
    vstd::arithmetic::div_mod::lemma_mod_bound(v, p);
    assert(p * q == q * p) by (nonlinear_arith);
    lemma_cast_product(q, p);
    let (a, x): (real, real) = (q as real, v as real);
    assert(x > a * u);
    assert(x / u > a) by (nonlinear_arith)
        requires
            u > 0real,
            x > a * u,
    ;
}

/// Two, three and four are the numbers they are named after.
pub proof fn lemma_small_numbers()
    ensures
        is_num(Scalar::two(), 2real),
        is_num(Scalar::three(), 3real),
        is_num(Scalar::four(), 4real),
{
    let (two, three, four): (Scalar, Scalar, Scalar) = (
        Scalar::two(),
        Scalar::three(),
        Scalar::four(),
    );
    lemma_pow2_fraction();
    lemma_pow2_adds(52, 1023);
    lemma_pow2_adds(52, 1024);
    lemma_pow2_adds(51, 1023);
    lemma_pow2_unfold(52);
    lemma_pow2_unfold(1075);
    lemma_pow2_unfold(1076);
    assert(two.exponent() == 1024 && two.fraction() == 0);
    assert(two.units() == pow2(1075));
    assert(three.exponent() == 1024 && three.fraction() == 0x8_0000_0000_0000);
    assert((FRACTION + three.fraction()) * pow2(1023) == 3 * (pow2(51) * pow2(1023)))
        by (nonlinear_arith)
        requires
            FRACTION + three.fraction() == 3 * pow2(51),
    ;
    assert(three.units() == 3 * pow2(1074));
    assert(four.exponent() == 1025 && four.fraction() == 0);
    assert(four.units() == pow2(1076));
    lemma_whole(two, 2);
    lemma_whole(three, 3);
    lemma_whole(four, 4);
}

/// A number whose value, times a power of two, is an integer.
pub proof fn lemma_scaled_number(x: Scalar, m: int, e: nat)
    requires
        !x.nan(),
        m >= 0,
        x.value() * pow2(e) == m * pow2(1074),
    ensures
        num(x) * (pow2(e) as int as real) == m as real,
{
    lemma_unit_is_positive();
    let u: real = unit();
    lemma_cast_product(x.value(), pow2(e) as int);
    lemma_cast_product(m, pow2(1074) as int);
    let (v, w, k): (real, real, real) = (x.value() as real, pow2(e) as int as real, m as real);
    assert(v * w == k * u);
    assert((v / u) * w == k) by (nonlinear_arith)
        requires
            u > 0real,
            v * w == k * u,
    ;
}

} // verus!

//! The numbers behind the named constants.

use crate::exact::{lemma_scaled_number, num};
use crate::scalar::{lemma_pow2_fraction, Scalar, FRACTION};
use vstd::arithmetic::power2::*;
use vstd::prelude::*;

verus! {

/// A positive number below a power of two of 2^53, by its exponent and fraction.
proof fn lemma_pattern(x: Scalar, e: int, f: int)
    requires
        !x.negative(),
        x.exponent() == e,
        x.fraction() == f,
        1 <= e <= 1075,
        !x.nan(),
    ensures
        num(x) * (pow2((1075 - e) as nat) as int as real) == (FRACTION + f) as real,
{
    let m: int = FRACTION + f;
    let (a, b): (nat, nat) = ((e - 1) as nat, (1075 - e) as nat);
    lemma_pow2_adds(a, b);
    assert(a + b == 1074);
    assert(x.units() == m * pow2(a));
    assert((m * pow2(a)) * pow2(b) == m * (pow2(a) * pow2(b))) by (nonlinear_arith);
    lemma_scaled_number(x, m, b);
}

/// What counts as no length is 10^-30, to one part in a million.
pub proof fn tiny_is_what_it_says()
    ensures
        !crate::region::tiny().nan(),
        999999real < num(crate::region::tiny()) * 1000000000000000000000000000000000000real < 1000001real,
{
    let x: Scalar = crate::region::tiny();
    lemma_pow2_fraction();
    lemma2_to64();
    lemma2_to64_rest();
    lemma_pattern(x, 923, 0x4484bfeebc2a0);
    lemma_pow2_adds(64, 64);
    lemma_pow2_adds(128, 24);
    assert(pow2(64) == 0x10000000000000000);
    assert(pow2(128) == 18446744073709551616 * 18446744073709551616);
    assert(pow2(24) == 0x1000000);
    assert(pow2(152) == 340282366920938463463374607431768211456 * 16777216);
    let s: real = num(x);
    assert(s * 5708990770823839524233143877797980545530986496real == 5708990770823840real);
    assert(999999real < s * 1000000000000000000000000000000000000real < 1000001real) by (nonlinear_arith)
        requires
            s * 5708990770823839524233143877797980545530986496real == 5708990770823840real,
    ;
}

/// A billionth is a billionth, to one part in a million.
pub proof fn nano_is_what_it_says()
    ensures
        !Scalar::nano().nan(),
        999999real < num(Scalar::nano()) * 1000000000000000real < 1000001real,
{
    let x: Scalar = Scalar::nano();
    lemma_pow2_fraction();
    lemma2_to64();
    lemma2_to64_rest();
    lemma_pattern(x, 993, 0x12e0be826d695);
    lemma_pow2_adds(64, 18);
    assert(pow2(64) == 0x10000000000000000);
    assert(pow2(18) == 0x40000);
    assert(pow2(82) == 18446744073709551616 * 262144);
    let s: real = num(x);
    assert(s * 4835703278458516698824704real == 4835703278458517real);
    assert(999999real < s * 1000000000000000real < 1000001real) by (nonlinear_arith)
        requires
            s * 4835703278458516698824704real == 4835703278458517real,
    ;
}

/// The change of a bound that is ignored is 10^-12, to one part in a million.
pub proof fn tolerance_is_what_it_says()
    ensures
        !crate::domain::tolerance().nan(),
        999999real < num(crate::domain::tolerance()) * 1000000000000000000real < 1000001real,
{
    let x: Scalar = crate::domain::tolerance();
    lemma_pow2_fraction();
    lemma2_to64();
    lemma2_to64_rest();
    lemma_pattern(x, 983, 0x19799812dea11);
    lemma_pow2_adds(64, 28);
    assert(pow2(64) == 0x10000000000000000);
    assert(pow2(28) == 0x10000000);
    assert(pow2(92) == 18446744073709551616 * 268435456);
    let s: real = num(x);
    assert(s * 4951760157141521099596496896real == 4951760157141521real);
    assert(999999real < s * 1000000000000000000real < 1000001real) by (nonlinear_arith)
        requires
            s * 4951760157141521099596496896real == 4951760157141521real,
    ;
}

/// A hundredth is a hundredth, to one part in a million.
pub proof fn hundredth_is_what_it_says()
    ensures
        !crate::domain::hundredth().nan(),
        999999real < num(crate::domain::hundredth()) * 100000000real < 1000001real,
{
    let x: Scalar = crate::domain::hundredth();
    lemma_pow2_fraction();
    lemma2_to64();
    lemma2_to64_rest();
    lemma_pattern(x, 1016, 0x47ae147ae147b);
    assert(pow2(59) == 0x800000000000000);
    let s: real = num(x);
    assert(s * 576460752303423488real == 5764607523034235real);
    assert(999999real < s * 100000000real < 1000001real) by (nonlinear_arith)
        requires
            s * 576460752303423488real == 5764607523034235real,
    ;
}

} // verus!

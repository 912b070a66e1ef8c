//! Vectors of three numbers.

use crate::energy::exact_dot;
use crate::exact::{
    exact_difference, exact_product, exact_quotient, exact_root, exact_sum, lemma_constants,
    lemma_divided, lemma_mul_order, lemma_negated, num,
};
use crate::scalar::{
    difference, is_arithmetic, minus, over, plus, product, quotient, root, sqrt, sum, times, Op,
    Scalar, Vec3,
};
use vstd::prelude::*;

verus! {

/// `a - b`.
pub open spec fn minus_of<F: Fn(Op, Scalar, Scalar, Scalar) -> Scalar>(ar: F, a: Vec3, b: Vec3) -> Vec3 {
    [difference(ar, a[0], b[0]), difference(ar, a[1], b[1]), difference(ar, a[2], b[2])]
}

/// `a + b`.
pub open spec fn plus_of<F: Fn(Op, Scalar, Scalar, Scalar) -> Scalar>(ar: F, a: Vec3, b: Vec3) -> Vec3 {
    [sum(ar, a[0], b[0]), sum(ar, a[1], b[1]), sum(ar, a[2], b[2])]
}

/// `a` times `s`.
pub open spec fn scaled<F: Fn(Op, Scalar, Scalar, Scalar) -> Scalar>(ar: F, a: Vec3, s: Scalar) -> Vec3 {
    [product(ar, a[0], s), product(ar, a[1], s), product(ar, a[2], s)]
}

/// The scalar product of `a` and `b`.
pub open spec fn dot_of<F: Fn(Op, Scalar, Scalar, Scalar) -> Scalar>(ar: F, a: Vec3, b: Vec3) -> Scalar {
    sum(
        ar,
        sum(ar, product(ar, a[0], b[0]), product(ar, a[1], b[1])),
        product(ar, a[2], b[2]),
    )
}

/// The length of `a`.
pub open spec fn norm_of<F: Fn(Op, Scalar, Scalar, Scalar) -> Scalar>(ar: F, a: Vec3) -> Scalar {
    root(ar, dot_of(ar, a, a))
}

/// Component `k` of the vector product of `a` and `b`.
pub open spec fn cross_at<F: Fn(Op, Scalar, Scalar, Scalar) -> Scalar>(
    ar: F,
    a: Vec3,
    b: Vec3,
    i: int,
    j: int,
) -> Scalar {
    difference(ar, product(ar, a[i], b[j]), product(ar, a[j], b[i]))
}

/// Component `k` of a vector product is computed without rounding.
pub open spec fn exact_cross<F: Fn(Op, Scalar, Scalar, Scalar) -> Scalar>(
    ar: F,
    a: Vec3,
    b: Vec3,
    i: int,
    j: int,
) -> bool {
    &&& exact_product(ar, a[i], b[j])
    &&& exact_product(ar, a[j], b[i])
    &&& exact_difference(ar, product(ar, a[i], b[j]), product(ar, a[j], b[i]))
}

/// `a - b`.
pub fn sub<F: Fn(Op, Scalar, Scalar, Scalar) -> Scalar>(a: Vec3, b: Vec3, ar: &F) -> (r: Vec3)
    requires
        is_arithmetic(*ar),
    ensures
        r == minus_of(*ar, a, b),
        forall|d: int|
            0 <= d < 3 && exact_difference(*ar, a[d], b[d]) ==> num(#[trigger] r[d]) == num(a[d])
                - num(b[d]),
{
    [minus(ar, a[0], b[0]), minus(ar, a[1], b[1]), minus(ar, a[2], b[2])]
}

/// `a + b`.
pub fn add<F: Fn(Op, Scalar, Scalar, Scalar) -> Scalar>(a: Vec3, b: Vec3, ar: &F) -> (r: Vec3)
    requires
        is_arithmetic(*ar),
    ensures
        r == plus_of(*ar, a, b),
        forall|d: int|
            0 <= d < 3 && exact_sum(*ar, a[d], b[d]) ==> num(#[trigger] r[d]) == num(a[d]) + num(
                b[d],
            ),
{
    [plus(ar, a[0], b[0]), plus(ar, a[1], b[1]), plus(ar, a[2], b[2])]
}

/// `-a`.
pub fn neg(a: Vec3) -> (r: Vec3)
    ensures
        r[0] == a[0].negated(),
        r[1] == a[1].negated(),
        r[2] == a[2].negated(),
        forall|d: int| 0 <= d < 3 ==> num(#[trigger] r[d]) == -num(a[d]),
{
    proof {
        lemma_negated(a[0]);
        lemma_negated(a[1]);
        lemma_negated(a[2]);
    }
    [a[0].neg(), a[1].neg(), a[2].neg()]
}

/// `a` times `s`.
pub fn scale<F: Fn(Op, Scalar, Scalar, Scalar) -> Scalar>(a: Vec3, s: Scalar, ar: &F) -> (r: Vec3)
    requires
        is_arithmetic(*ar),
    ensures
        r == scaled(*ar, a, s),
        forall|d: int|
            0 <= d < 3 && exact_product(*ar, a[d], s) ==> num(#[trigger] r[d]) == num(a[d]) * num(s),
{
    [times(ar, a[0], s), times(ar, a[1], s), times(ar, a[2], s)]
}

/// `a + s * b`.
pub fn add_scaled<F: Fn(Op, Scalar, Scalar, Scalar) -> Scalar>(a: Vec3, b: Vec3, s: Scalar, ar: &F) -> (r:
    Vec3)
    requires
        is_arithmetic(*ar),
    ensures
        forall|d: int|
            0 <= d < 3 ==> #[trigger] r[d] == sum(*ar, a[d], product(*ar, s, b[d])),
        forall|d: int|
            0 <= d < 3 && exact_product(*ar, s, b[d]) && exact_sum(*ar, a[d], product(*ar, s, b[d]))
                ==> num(#[trigger] r[d]) == num(a[d]) + num(s) * num(b[d]),
{
    [
        plus(ar, a[0], times(ar, s, b[0])),
        plus(ar, a[1], times(ar, s, b[1])),
        plus(ar, a[2], times(ar, s, b[2])),
    ]
}

/// The scalar product.
pub fn dot<F: Fn(Op, Scalar, Scalar, Scalar) -> Scalar>(a: Vec3, b: Vec3, ar: &F) -> (r: Scalar)
    requires
        is_arithmetic(*ar),
    ensures
        r == dot_of(*ar, a, b),
        exact_dot(*ar, a, b) ==> num(r) == num(a[0]) * num(b[0]) + num(a[1]) * num(b[1]) + num(a[2])
            * num(b[2]),
{
    plus(ar, plus(ar, times(ar, a[0], b[0]), times(ar, a[1], b[1])), times(ar, a[2], b[2]))
}

/// The vector product.
pub fn cross<F: Fn(Op, Scalar, Scalar, Scalar) -> Scalar>(a: Vec3, b: Vec3, ar: &F) -> (r: Vec3)
    requires
        is_arithmetic(*ar),
    ensures
        r[0] == cross_at(*ar, a, b, 1, 2),
        r[1] == cross_at(*ar, a, b, 2, 0),
        r[2] == cross_at(*ar, a, b, 0, 1),
        exact_cross(*ar, a, b, 1, 2) ==> num(r[0]) == num(a[1]) * num(b[2]) - num(a[2]) * num(b[1]),
        exact_cross(*ar, a, b, 2, 0) ==> num(r[1]) == num(a[2]) * num(b[0]) - num(a[0]) * num(b[2]),
        exact_cross(*ar, a, b, 0, 1) ==> num(r[2]) == num(a[0]) * num(b[1]) - num(a[1]) * num(b[0]),
{
    [
        minus(ar, times(ar, a[1], b[2]), times(ar, a[2], b[1])),
        minus(ar, times(ar, a[2], b[0]), times(ar, a[0], b[2])),
        minus(ar, times(ar, a[0], b[1]), times(ar, a[1], b[0])),
    ]
}

/// The squared length.
pub fn norm_sq<F: Fn(Op, Scalar, Scalar, Scalar) -> Scalar>(a: Vec3, ar: &F) -> (r: Scalar)
    requires
        is_arithmetic(*ar),
    ensures
        r == dot_of(*ar, a, a),
        exact_dot(*ar, a, a) ==> num(r) == num(a[0]) * num(a[0]) + num(a[1]) * num(a[1]) + num(a[2])
            * num(a[2]),
{
    dot(a, a, ar)
}

/// The length.
pub fn norm<F: Fn(Op, Scalar, Scalar, Scalar) -> Scalar>(a: Vec3, ar: &F) -> (r: Scalar)
    requires
        is_arithmetic(*ar),
    ensures
        r == norm_of(*ar, a),
        exact_dot(*ar, a, a) && exact_root(*ar, dot_of(*ar, a, a)) ==> num(r) >= 0real && num(r)
            * num(r) == num(a[0]) * num(a[0]) + num(a[1]) * num(a[1]) + num(a[2]) * num(a[2]),
{
    sqrt(ar, norm_sq(a, ar))
}

/// Component `d` of a direction is computed without rounding.
pub open spec fn exact_direction<F: Fn(Op, Scalar, Scalar, Scalar) -> Scalar>(
    ar: F,
    a: Vec3,
    d: int,
) -> bool {
    &&& exact_quotient(ar, Scalar::one(), norm_of(ar, a))
    &&& exact_product(ar, a[d], quotient(ar, Scalar::one(), norm_of(ar, a)))
}

/// The direction and the length; both are zero for a vector without a
/// positive length.
pub fn normalize<F: Fn(Op, Scalar, Scalar, Scalar) -> Scalar>(a: Vec3, ar: &F) -> (r: (Vec3, Scalar))
    requires
        is_arithmetic(*ar),
    ensures
        Scalar::zero().below(norm_of(*ar, a)) ==> r.1 == norm_of(*ar, a) && r.0 == scaled(
            *ar,
            a,
            quotient(*ar, Scalar::one(), norm_of(*ar, a)),
        ),
        !Scalar::zero().below(norm_of(*ar, a)) ==> r.1 == Scalar::zero() && r.0[0] == Scalar::zero()
            && r.0[1] == Scalar::zero() && r.0[2] == Scalar::zero(),
        forall|d: int|
            0 <= d < 3 && Scalar::zero().below(norm_of(*ar, a)) && exact_direction(*ar, a, d) ==> num(
                #[trigger] r.0[d],
            ) * num(r.1) == num(a[d]),
{
    let n: Scalar = norm(a, ar);
    let zero: Scalar = Scalar::zero();
    proof {
        assert forall|d: int| 0 <= d < 3 && #[trigger] exact_direction(*ar, a, d) implies num(
            product(*ar, a[d], quotient(*ar, Scalar::one(), n)),
        ) * num(n) == num(a[d]) by {
            lemma_constants();
            lemma_divided(1real, num(n));
            lemma_mul_order(num(a[d]), 1real / num(n), num(n));
            assert(num(a[d]) * 1real == num(a[d]));
        }
    }
    if zero.lt(n) {
        (scale(a, over(ar, Scalar::one(), n), ar), n)
    } else {
        ([zero, zero, zero], zero)
    }
}

/// `dst += a`.
pub fn add_assign<F: Fn(Op, Scalar, Scalar, Scalar) -> Scalar>(dst: &mut Vec3, a: Vec3, ar: &F)
    requires
        is_arithmetic(*ar),
    ensures
        *final(dst) == plus_of(*ar, *old(dst), a),
{
    *dst = self::add(*dst, a, ar);
}

/// `dst -= a`.
pub fn sub_assign<F: Fn(Op, Scalar, Scalar, Scalar) -> Scalar>(dst: &mut Vec3, a: Vec3, ar: &F)
    requires
        is_arithmetic(*ar),
    ensures
        *final(dst) == minus_of(*ar, *old(dst), a),
{
    *dst = self::sub(*dst, a, ar);
}

} // verus!

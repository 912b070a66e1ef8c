//! Drawn points lie inside their regions, where no operation rounds.

use crate::exact::{
    exact_difference, exact_product, exact_sum, lemma_constants, lemma_mul_add,
    lemma_mul_order, lemma_order, num,
};
use crate::region::{composed, cone_radius, decomposed, inside, squares, union_is_or, Axis, Region};
use crate::sampling::{drawn_point, sampled, Drawn, Sampling};
use crate::scalar::{difference, product, sum, Op, Scalar, Vec3};
use crate::vec3::{dot_of, minus_of, plus_of, scaled};
use vstd::prelude::*;

verus! {

/// The sum of the squares is exact.
pub open spec fn exact_squares<F: Fn(Op, Scalar, Scalar, Scalar) -> Scalar>(ar: F, a: Scalar, b: Scalar) -> bool {
    &&& exact_product(ar, a, a)
    &&& exact_product(ar, b, b)
    &&& exact_sum(ar, product(ar, a, a), product(ar, b, b))
}

/// The scalar product of a vector with itself is exact.
pub open spec fn exact_norm<F: Fn(Op, Scalar, Scalar, Scalar) -> Scalar>(ar: F, v: Vec3) -> bool {
    &&& exact_squares(ar, v[0], v[1])
    &&& exact_product(ar, v[2], v[2])
    &&& exact_sum(ar, squares(ar, v[0], v[1]), product(ar, v[2], v[2]))
}

/// A point that is moved away from the centre and seen from there again is moved
/// by as much.
pub open spec fn exact_offset<F: Fn(Op, Scalar, Scalar, Scalar) -> Scalar>(ar: F, center: Scalar, x: Scalar) -> bool {
    &&& exact_sum(ar, center, x)
    &&& exact_difference(ar, sum(ar, center, x), center)
}

/// The square of `u * r` is the square of `u` times the square of `r`.
proof fn lemma_square_of_product(u: real, r: real)
    ensures
        (u * r) * (u * r) == (u * u) * (r * r),
{
    lemma_mul_order(u * r, u, r);
    lemma_mul_order(u, r, u);
    lemma_mul_order(r, u, u);
    lemma_mul_order(u, u, r);
    lemma_mul_order(u * u, r, r);
    assert((u * r) * (u * r) == ((u * r) * u) * r);
    assert((u * r) * u == (u * u) * r);
}

/// What is at most one times something that is no negative number is at most that.
proof fn lemma_at_most(a: real, b: real)
    requires
        a <= 1real,
        b >= 0real,
    ensures
        a * b <= b,
{
    assert(a * b <= b) by (nonlinear_arith)
        requires
            a <= 1real,
            b >= 0real,
    ;
}

pub proof fn lemma_natural_square(a: real)
    ensures
        a * a >= 0real,
{
    assert(a * a >= 0real) by (nonlinear_arith);
}

/// A point drawn for a sphere lies in the sphere.
pub proof fn drawn_sphere_points_are_inside<F: Fn(Op, Scalar, Scalar, Scalar) -> Scalar>(
    ar: F,
    center: Vec3,
    radius: Scalar,
    draws: Vec3,
    point: Vec3,
)
    requires
        drawn_point(ar, Region::Sphere { center, radius }, draws) == Some(point),
        exact_norm(ar, draws),
        exact_product(ar, radius, radius),
        forall|d: int|
            0 <= d < 3 ==> exact_product(ar, #[trigger] draws[d], radius) && exact_offset(
                ar,
                center[d],
                product(ar, draws[d], radius),
            ),
        exact_norm(ar, minus_of(ar, point, center)),
    ensures
        inside(ar, Region::Sphere { center, radius }, point),
{
    lemma_constants();
    let e: Vec3 = minus_of(ar, point, center);
    let r: real = num(radius);
    let (u, v, w): (real, real, real) = (num(draws[0]), num(draws[1]), num(draws[2]));
    assert(exact_offset(ar, center[0], product(ar, draws[0], radius)));
    assert(exact_offset(ar, center[1], product(ar, draws[1], radius)));
    assert(exact_offset(ar, center[2], product(ar, draws[2], radius)));
    assert(num(e[0]) == u * r && num(e[1]) == v * r && num(e[2]) == w * r);
    lemma_order(Scalar::one(), dot_of(ar, draws, draws));
    lemma_order(product(ar, radius, radius), dot_of(ar, e, e));
    lemma_square_of_product(u, r);
    lemma_square_of_product(v, r);
    lemma_square_of_product(w, r);
    lemma_mul_add(r * r, u * u, v * v);
    lemma_mul_add(r * r, u * u + v * v, w * w);
    lemma_natural_square(r);
    lemma_at_most(u * u + v * v + w * w, r * r);
}

/// The coordinates of a composed point, seen from the centre line.
proof fn lemma_decomposed<F: Fn(Op, Scalar, Scalar, Scalar) -> Scalar>(
    ar: F,
    axial: Scalar,
    a: Scalar,
    b: Scalar,
    center: [Scalar; 2],
    axis: Axis,
)
    ensures
        decomposed(ar, composed(ar, axial, a, b, center, axis), center, axis) == (
            axial,
            difference(ar, sum(ar, center[0], a), center[0]),
            difference(ar, sum(ar, center[1], b), center[1]),
        ),
{
}

/// A point drawn for a cylinder lies in the cylinder, where the number along its
/// axis was drawn between its ends.
pub proof fn drawn_cylinder_points_are_inside<F: Fn(Op, Scalar, Scalar, Scalar) -> Scalar>(
    ar: F,
    center: [Scalar; 2],
    radius: Scalar,
    axis: Axis,
    lo: Scalar,
    hi: Scalar,
    draws: Vec3,
    point: Vec3,
)
    requires
        drawn_point(ar, Region::Cylinder { center, radius, axis, lo, hi }, draws) == Some(point),
        draws[2].at_least(lo),
        draws[2].below(hi),
        exact_squares(ar, draws[0], draws[1]),
        exact_product(ar, radius, radius),
        exact_product(ar, draws[0], radius),
        exact_product(ar, draws[1], radius),
        ({
            let a = product(ar, draws[0], radius);
            let b = product(ar, draws[1], radius);
            &&& exact_offset(ar, center[0], a)
            &&& exact_offset(ar, center[1], b)
            &&& exact_squares(
                ar,
                difference(ar, sum(ar, center[0], a), center[0]),
                difference(ar, sum(ar, center[1], b), center[1]),
            )
        }),
    ensures
        inside(ar, Region::Cylinder { center, radius, axis, lo, hi }, point),
{
    lemma_constants();
    let (a, b): (Scalar, Scalar) = (product(ar, draws[0], radius), product(ar, draws[1], radius));
    let e: Scalar = difference(ar, sum(ar, center[0], a), center[0]);
    let f: Scalar = difference(ar, sum(ar, center[1], b), center[1]);
    let r: real = num(radius);
    let (u, v): (real, real) = (num(draws[0]), num(draws[1]));
    lemma_decomposed(ar, draws[2], a, b, center, axis);
    lemma_order(Scalar::one(), squares(ar, draws[0], draws[1]));
    lemma_order(product(ar, radius, radius), squares(ar, e, f));
    lemma_square_of_product(u, r);
    lemma_square_of_product(v, r);
    lemma_mul_add(r * r, u * u, v * v);
    lemma_natural_square(r);
    lemma_at_most(u * u + v * v, r * r);
    assert(num(squares(ar, e, f)) == (u * r) * (u * r) + (v * r) * (v * r));
}

/// A point drawn for a cone lies in the cone, where the number along its axis was
/// drawn between its ends.
pub proof fn drawn_cone_points_are_inside<F: Fn(Op, Scalar, Scalar, Scalar) -> Scalar>(
    ar: F,
    center: [Scalar; 2],
    axis: Axis,
    rad_lo: Scalar,
    rad_hi: Scalar,
    lo: Scalar,
    hi: Scalar,
    draws: Vec3,
    point: Vec3,
)
    requires
        drawn_point(ar, Region::Cone { center, axis, rad_lo, rad_hi, lo, hi }, draws) == Some(point),
        draws[2].at_least(lo),
        draws[2].below(hi),
        ({
            let most = rad_lo.greater(rad_hi);
            let a = product(ar, draws[0], most);
            let b = product(ar, draws[1], most);
            &&& exact_squares(ar, a, b)
            &&& exact_offset(ar, center[0], a)
            &&& exact_offset(ar, center[1], b)
            &&& exact_squares(
                ar,
                difference(ar, sum(ar, center[0], a), center[0]),
                difference(ar, sum(ar, center[1], b), center[1]),
            )
        }),
    ensures
        inside(ar, Region::Cone { center, axis, rad_lo, rad_hi, lo, hi }, point),
{
    let most: Scalar = rad_lo.greater(rad_hi);
    let (a, b): (Scalar, Scalar) = (product(ar, draws[0], most), product(ar, draws[1], most));
    let e: Scalar = difference(ar, sum(ar, center[0], a), center[0]);
    let f: Scalar = difference(ar, sum(ar, center[1], b), center[1]);
    let r: Scalar = cone_radius(ar, draws[2], rad_lo, rad_hi, lo, hi);
    lemma_decomposed(ar, draws[2], a, b, center, axis);
    lemma_order(product(ar, r, r), squares(ar, a, b));
    lemma_order(product(ar, r, r), squares(ar, e, f));
    assert(num(e) == num(a) && num(f) == num(b));
}

/// The three numbers that are drawn from `at` on.
pub open spec fn numbers_at(draws: Seq<Drawn>, at: int) -> Vec3 {
    [draws[at]->Number_0, draws[at + 1]->Number_0, draws[at + 2]->Number_0]
}

/// The draws that a point of the region is made of were drawn from their ranges, and
/// the point is computed from them without rounding.
pub open spec fn exact_draws<F: Fn(Op, Scalar, Scalar, Scalar) -> Scalar>(
    ar: F,
    region: Region,
    draws: Seq<Drawn>,
    at: int,
) -> bool
    decreases region,
{
    let d = numbers_at(draws, at);
    match region {
        Region::Block { min, max } => forall|k: int|
            0 <= k < 3 ==> (#[trigger] d[k]).at_least(min[k]) && d[k].below(max[k]),
        Region::Sphere { center, radius } => {
            &&& exact_norm(ar, d)
            &&& exact_product(ar, radius, radius)
            &&& forall|k: int|
                0 <= k < 3 ==> exact_product(ar, #[trigger] d[k], radius) && exact_offset(
                    ar,
                    center[k],
                    product(ar, d[k], radius),
                )
            &&& exact_norm(
                ar,
                minus_of(ar, plus_of(ar, center, scaled(ar, d, radius)), center),
            )
        },
        Region::Cylinder { center, radius, axis, lo, hi } => {
            let a = product(ar, d[0], radius);
            let b = product(ar, d[1], radius);
            &&& d[2].at_least(lo) && d[2].below(hi)
            &&& exact_squares(ar, d[0], d[1])
            &&& exact_product(ar, radius, radius)
            &&& exact_product(ar, d[0], radius) && exact_product(ar, d[1], radius)
            &&& exact_offset(ar, center[0], a) && exact_offset(ar, center[1], b)
            &&& exact_squares(
                ar,
                difference(ar, sum(ar, center[0], a), center[0]),
                difference(ar, sum(ar, center[1], b), center[1]),
            )
        },
        Region::Cone { center, axis, rad_lo, rad_hi, lo, hi } => {
            let most = rad_lo.greater(rad_hi);
            let a = product(ar, d[0], most);
            let b = product(ar, d[1], most);
            &&& d[2].at_least(lo) && d[2].below(hi)
            &&& exact_squares(ar, a, b)
            &&& exact_offset(ar, center[0], a) && exact_offset(ar, center[1], b)
            &&& exact_squares(
                ar,
                difference(ar, sum(ar, center[0], a), center[0]),
                difference(ar, sum(ar, center[1], b), center[1]),
            )
        },
        Region::Union { regions } => match draws[at] {
            Drawn::Index(k) if k < regions@.len() => exact_draws(
                ar,
                regions@[k as int],
                draws,
                at + 1,
            ),
            _ => true,
        },
        _ => true,
    }
}

/// A random point lies in its region, however unions and intersections are nested: in
/// one of the parts of a union, and in all parts of an intersection.
pub proof fn random_points_lie_inside<F: Fn(Op, Scalar, Scalar, Scalar) -> Scalar>(
    ar: F,
    region: Region,
    draws: Seq<Drawn>,
    at: int,
    point: Vec3,
)
    requires
        0 <= at,
        sampled(ar, region, draws, at) == (Sampling::Inside { point }),
        exact_draws(ar, region, draws, at),
    ensures
        inside(ar, region, point),
    decreases region,
{
    let d: Vec3 = numbers_at(draws, at);
    match region {
        Region::Plane { .. } => {},
        Region::Block { min, max } => {
            assert(drawn_point(ar, region, d) == Some(point));
        },
        Region::Sphere { center, radius } => {
            drawn_sphere_points_are_inside(ar, center, radius, d, point);
        },
        Region::Cylinder { center, radius, axis, lo, hi } => {
            drawn_cylinder_points_are_inside(ar, center, radius, axis, lo, hi, d, point);
        },
        Region::Cone { center, axis, rad_lo, rad_hi, lo, hi } => {
            drawn_cone_points_are_inside(ar, center, axis, rad_lo, rad_hi, lo, hi, d, point);
        },
        Region::Union { regions } => {
            match draws[at] {
                Drawn::Index(k) => {
                    random_points_lie_inside(ar, regions@[k as int], draws, at + 1, point);
                    union_is_or(ar, regions, point, regions@.len());
                    assert(inside(ar, regions@[k as int], point));
                },
                Drawn::Number(_) => {},
            }
        },
        Region::Intersect { regions } => {},
    }
}

} // verus!

//! How drawn numbers become points of a region, where no operation rounds: every point
//! of a shape can be drawn.

use crate::energy::exact_dot;
use crate::exact::{exact_product, exact_sum, lemma_constants, lemma_order, num};
use crate::geometry::point_of;
use crate::region::{cone_radius, inside, intersection_is_and, squares, Axis, Region};
use crate::sampling::{drawn_point, range_of, sampled, Drawn, Sampling};
use crate::scalar::{product, Op, Scalar, Vec3};
use crate::shapes::seen_along;
use crate::vec3::dot_of;
use vstd::prelude::*;

verus! {

/// The numbers for a block are drawn between its corners, and are the point.
pub proof fn block_draws_are_the_point<F: Fn(Op, Scalar, Scalar, Scalar) -> Scalar>(
    ar: F,
    min: Vec3,
    max: Vec3,
    draws: Vec3,
    d: int,
)
    requires
        0 <= d < 3,
    ensures
        range_of(Region::Block { min, max }, d) == (min[d], max[d]),
        drawn_point(ar, Region::Block { min, max }, draws) == Some(draws),
{
}

/// The numbers for a sphere are drawn between minus one and one. They are kept exactly
/// if they lie in the unit ball, and then lead that part of the radius away from the
/// centre.
pub proof fn sphere_draws_fill_the_sphere<F: Fn(Op, Scalar, Scalar, Scalar) -> Scalar>(
    ar: F,
    center: Vec3,
    radius: Scalar,
    draws: Vec3,
    d: int,
)
    requires
        0 <= d < 3,
        exact_dot(ar, draws, draws),
        exact_product(ar, draws[d], radius),
        exact_sum(ar, center[d], product(ar, draws[d], radius)),
    ensures
        ({
            let region = Region::Sphere { center, radius };
            let (x, y, z) = (num(draws[0]), num(draws[1]), num(draws[2]));
            let (lo, hi) = range_of(region, d);
            &&& num(lo) == -1real && num(hi) == 1real
            &&& drawn_point(ar, region, draws) is Some <==> x * x + y * y + z * z <= 1real
            &&& drawn_point(ar, region, draws) matches Some(p) ==> num(p[d]) == num(center[d]) + num(
                draws[d],
            ) * num(radius)
        }),
{
    lemma_constants();
    lemma_order(Scalar::one(), dot_of(ar, draws, draws));
}

/// Two numbers are scaled and led away from a centre line without rounding.
pub open spec fn exact_composition<F: Fn(Op, Scalar, Scalar, Scalar) -> Scalar>(
    ar: F,
    u: Scalar,
    v: Scalar,
    radius: Scalar,
    center: [Scalar; 2],
) -> bool {
    let (a, b) = (product(ar, u, radius), product(ar, v, radius));
    &&& exact_product(ar, u, radius)
    &&& exact_product(ar, v, radius)
    &&& exact_sum(ar, center[0], a)
    &&& exact_sum(ar, center[1], b)
}

/// Two numbers are squared and added without rounding.
pub open spec fn exact_two_squares<F: Fn(Op, Scalar, Scalar, Scalar) -> Scalar>(
    ar: F,
    u: Scalar,
    v: Scalar,
) -> bool {
    &&& exact_product(ar, u, u)
    &&& exact_product(ar, v, v)
    &&& exact_sum(ar, product(ar, u, u), product(ar, v, v))
}

/// The numbers for a cylinder are drawn between minus one and one across its axis and
/// between its ends along it. They are kept exactly if the first two lie in the unit
/// circle, and then lead that part of the radius away from the centre line.
pub proof fn cylinder_draws_fill_the_cylinder<F: Fn(Op, Scalar, Scalar, Scalar) -> Scalar>(
    ar: F,
    center: [Scalar; 2],
    radius: Scalar,
    axis: Axis,
    lo: Scalar,
    hi: Scalar,
    draws: Vec3,
)
    requires
        exact_two_squares(ar, draws[0], draws[1]),
        exact_composition(ar, draws[0], draws[1], radius, center),
    ensures
        ({
            let region = Region::Cylinder { center, radius, axis, lo, hi };
            let (u, v) = (num(draws[0]), num(draws[1]));
            &&& num(range_of(region, 0).0) == -1real && num(range_of(region, 0).1) == 1real
            &&& num(range_of(region, 1).0) == -1real && num(range_of(region, 1).1) == 1real
            &&& range_of(region, 2) == (lo, hi)
            &&& drawn_point(ar, region, draws) is Some <==> u * u + v * v <= 1real
            &&& drawn_point(ar, region, draws) matches Some(p) ==> seen_along(point_of(p), axis) == (
                num(draws[2]),
                num(center[0]) + u * num(radius),
                num(center[1]) + v * num(radius),
            )
        }),
{
    lemma_constants();
    lemma_order(Scalar::one(), squares(ar, draws[0], draws[1]));
}

/// The numbers for a cone are drawn as for the cylinder of its greater radius around it,
/// and kept exactly if the point is no farther from the centre line than the cone's
/// radius there.
pub proof fn cone_draws_fill_the_cone<F: Fn(Op, Scalar, Scalar, Scalar) -> Scalar>(
    ar: F,
    center: [Scalar; 2],
    axis: Axis,
    rad_lo: Scalar,
    rad_hi: Scalar,
    lo: Scalar,
    hi: Scalar,
    draws: Vec3,
    greater: real,
)
    requires
        !rad_lo.nan() && !rad_hi.nan(),
        greater == if num(rad_lo) >= num(rad_hi) {
            num(rad_lo)
        } else {
            num(rad_hi)
        },
        ({
            let most = if num(rad_lo) >= num(rad_hi) {
                rad_lo
            } else {
                rad_hi
            };
            let r = cone_radius(ar, draws[2], rad_lo, rad_hi, lo, hi);
            &&& exact_composition(ar, draws[0], draws[1], most, center)
            &&& exact_two_squares(ar, product(ar, draws[0], most), product(ar, draws[1], most))
            &&& exact_product(ar, r, r)
        }),
    ensures
        ({
            let region = Region::Cone { center, axis, rad_lo, rad_hi, lo, hi };
            let (u, v) = (num(draws[0]) * greater, num(draws[1]) * greater);
            let r = num(cone_radius(ar, draws[2], rad_lo, rad_hi, lo, hi));
            &&& num(range_of(region, 0).0) == -1real && num(range_of(region, 0).1) == 1real
            &&& num(range_of(region, 1).0) == -1real && num(range_of(region, 1).1) == 1real
            &&& range_of(region, 2) == (lo, hi)
            &&& drawn_point(ar, region, draws) is Some <==> u * u + v * v <= r * r
            &&& drawn_point(ar, region, draws) matches Some(p) ==> seen_along(point_of(p), axis) == (
                num(draws[2]),
                num(center[0]) + u,
                num(center[1]) + v,
            )
        }),
{
    lemma_constants();
    lemma_order(rad_lo, rad_hi);
    lemma_order(rad_hi, rad_lo);
    let most: Scalar = rad_lo.greater(rad_hi);
    let r: Scalar = cone_radius(ar, draws[2], rad_lo, rad_hi, lo, hi);
    lemma_order(
        product(ar, r, r),
        squares(ar, product(ar, draws[0], most), product(ar, draws[1], most)),
    );
}

/// A point takes three numbers, each drawn from its own range. Where the shape keeps them
/// they are a point inside, and where it does not they are drawn again.
pub proof fn three_numbers_make_a_point<F: Fn(Op, Scalar, Scalar, Scalar) -> Scalar>(
    ar: F,
    region: Region,
    draws: Seq<Drawn>,
    at: int,
)
    requires
        0 <= at <= usize::MAX,
        region is Block || region is Sphere || region is Cone,
        at <= draws.len() <= at + 3,
        forall|k: int| at <= k < draws.len() ==> (#[trigger] draws[k]) is Number,
    ensures
        draws.len() < at + 3 ==> sampled(ar, region, draws, at) == (Sampling::Number {
            lo: range_of(region, draws.len() - at).0,
            hi: range_of(region, draws.len() - at).1,
        }),
        draws.len() == at + 3 ==> {
            let numbers: Vec3 = [
                draws[at]->Number_0,
                draws[at + 1]->Number_0,
                draws[at + 2]->Number_0,
            ];
            &&& drawn_point(ar, region, numbers) matches Some(p) ==> sampled(ar, region, draws, at)
                == (Sampling::Inside { point: p })
            &&& drawn_point(ar, region, numbers) is None ==> sampled(ar, region, draws, at) == (
            Sampling::Again { keep: at as usize })
        },
{
}

/// A union takes its points from the region that was drawn, and an intersection from its
/// first region, as long as all others contain them.
pub proof fn composite_points_come_from_parts<F: Fn(Op, Scalar, Scalar, Scalar) -> Scalar>(
    ar: F,
    regions: Vec<Region>,
    draws: Seq<Drawn>,
    at: int,
    k: usize,
    point: Vec3,
)
    requires
        0 <= at <= usize::MAX,
        k < regions@.len(),
    ensures
        draws.len() > at && draws[at] == Drawn::Index(k) ==> sampled(
            ar,
            Region::Union { regions },
            draws,
            at,
        ) == sampled(ar, regions@[k as int], draws, at + 1),
        draws.len() <= at ==> sampled(ar, Region::Union { regions }, draws, at) == (
        Sampling::Index { count: regions@.len() as usize }),
        sampled(ar, regions@[0], draws, at) == (Sampling::Inside { point }) && (forall|i: int|
            0 <= i < regions@.len() ==> inside(ar, #[trigger] regions@[i], point)) ==> sampled(
            ar,
            Region::Intersect { regions },
            draws,
            at,
        ) == (Sampling::Inside { point }),
{
    intersection_is_and(ar, regions, point, regions@.len());
}

} // verus!

//! Random points inside regions. The library says which number is to be drawn
//! next and what the numbers drawn so far amount to; drawing them is left to the
//! caller.

use crate::region::{
    intersection_is_and,
    composed, compose_axis, cone_radius, inside, squares, sum_squares, tiny, Region,
};
use crate::scalar::{is_arithmetic, minus, over, plus, product, times, Op, Scalar, Vec3};
use crate::vec3::dot_of;
use vstd::prelude::*;

verus! {

/// What was drawn.
#[derive(Clone, Copy, PartialEq, Eq, Structural, Debug)]
pub enum Drawn {
    /// A number from a range.
    Number(Scalar),
    /// One of the regions of a union.
    Index(usize),
}

/// What to do next on the way to a random point.
#[derive(Clone, Copy, PartialEq, Eq, Debug)]
pub enum Sampling {
    /// Draw a number from `lo` up to, but not including, `hi`.
    Number { lo: Scalar, hi: Scalar },
    /// Draw an index below `count`.
    Index { count: usize },
    /// Forget all draws but the first `keep`.
    Again { keep: usize },
    /// The draws amount to this point.
    Inside { point: Vec3 },
    /// The region has a part without bounds.
    Unbounded,
    /// The region has a union of nothing as its part.
    EmptyUnion,
    /// The region has an intersection of nothing as its part.
    EmptyIntersect,
}

/// The range from which the `d`-th of the three numbers of a point is drawn: the
/// bounds of a block, and the square or cube around round regions.
pub open spec fn range_of(region: Region, d: int) -> (Scalar, Scalar) {
    match region {
        Region::Block { min, max } => (min[d], max[d]),
        Region::Cylinder { lo, hi, .. } if d == 2 => (lo, hi),
        Region::Cone { lo, hi, .. } if d == 2 => (lo, hi),
        _ => (Scalar::minus_one(), Scalar::one()),
    }
}

/// The point that three drawn numbers stand for, `None` where they are rejected.
pub open spec fn drawn_point<F: Fn(Op, Scalar, Scalar, Scalar) -> Scalar>(
    ar: F,
    region: Region,
    draws: Vec3,
) -> Option<Vec3> {
    match region {
        Region::Sphere { center, radius } => if Scalar::one().at_least(dot_of(ar, draws, draws)) {
            Some(crate::vec3::plus_of(ar, center, crate::vec3::scaled(ar, draws, radius)))
        } else {
            None
        },
        Region::Cylinder { center, radius, axis, .. } => if in_unit_circle(
            ar,
            draws[0],
            draws[1],
        ) {
            Some(
                composed(
                    ar,
                    draws[2],
                    product(ar, draws[0], radius),
                    product(ar, draws[1], radius),
                    center,
                    axis,
                ),
            )
        } else {
            None
        },
        Region::Cone { center, axis, rad_lo, rad_hi, lo, hi } => {
            let max_r = rad_lo.greater(rad_hi);
            let u = product(ar, draws[0], max_r);
            let v = product(ar, draws[1], max_r);
            let r = cone_radius(ar, draws[2], rad_lo, rad_hi, lo, hi);
            if product(ar, r, r).at_least(squares(ar, u, v)) {
                Some(composed(ar, draws[2], u, v, center, axis))
            } else {
                None
            }
        },
        _ => Some(draws),
    }
}

/// The point lies in the circle of radius one around the origin.
pub open spec fn in_unit_circle<F: Fn(Op, Scalar, Scalar, Scalar) -> Scalar>(
    ar: F,
    u: Scalar,
    v: Scalar,
) -> bool {
    Scalar::one().at_least(squares(ar, u, v))
}

/// The draws from `at` on, up to three of them, are numbers.
pub open spec fn numbers_from(draws: Seq<Drawn>, at: int) -> bool {
    forall|i: int| at <= i < draws.len() && i < at + 3 ==> (#[trigger] draws[i]) is Number
}

/// What to do next for a region that is neither a union nor an intersection. A
/// point takes three numbers; that a point lies outside a cylinder is found out
/// before the number along its axis is drawn.
pub open spec fn sampled_simple<F: Fn(Op, Scalar, Scalar, Scalar) -> Scalar>(
    ar: F,
    region: Region,
    draws: Seq<Drawn>,
    at: int,
) -> Sampling {
    let count: int = draws.len() - at;
    if !numbers_from(draws, at) {
        Sampling::Again { keep: at as usize }
    } else if region is Cylinder && count == 2 && !in_unit_circle(
        ar,
        draws[at]->Number_0,
        draws[at + 1]->Number_0,
    ) {
        Sampling::Again { keep: at as usize }
    } else if count < 3 {
        let (lo, hi) = range_of(region, count);
        Sampling::Number { lo, hi }
    } else {
        match drawn_point(
            ar,
            region,
            [draws[at]->Number_0, draws[at + 1]->Number_0, draws[at + 2]->Number_0],
        ) {
            Some(point) => Sampling::Inside { point },
            None => Sampling::Again { keep: at as usize },
        }
    }
}

/// What to do next, with the draws from `at` on spent on this region. A union
/// draws one of its regions and then a point in it; an intersection takes points
/// of its first region until one lies in all.
pub open spec fn sampled<F: Fn(Op, Scalar, Scalar, Scalar) -> Scalar>(
    ar: F,
    region: Region,
    draws: Seq<Drawn>,
    at: int,
) -> Sampling
    decreases region,
{
    match region {
        Region::Plane { .. } => Sampling::Unbounded,
        Region::Union { regions } => if regions@.len() == 0 {
            Sampling::EmptyUnion
        } else if draws.len() <= at {
            Sampling::Index { count: regions@.len() as usize }
        } else {
            match draws[at] {
                Drawn::Index(k) if k < regions@.len() => sampled(
                    ar,
                    regions@[k as int],
                    draws,
                    at + 1,
                ),
                _ => Sampling::Again { keep: at as usize },
            }
        },
        Region::Intersect { regions } => if regions@.len() == 0 {
            Sampling::EmptyIntersect
        } else {
            match sampled(ar, regions@[0], draws, at) {
                Sampling::Inside { point } => if inside(ar, region, point) {
                    Sampling::Inside { point }
                } else {
                    Sampling::Again { keep: at as usize }
                },
                other => other,
            }
        },
        _ => sampled_simple(ar, region, draws, at),
    }
}

impl Region {
    /// What to do next on the way to a random point inside the region, after
    /// `draws` were drawn. The draws before `at` were spent on the regions that
    /// this one is a part of.
    pub fn random_point_inside<F: Fn(Op, Scalar, Scalar, Scalar) -> Scalar>(
        &self,
        draws: &Vec<Drawn>,
        at: usize,
        ar: &F,
    ) -> (r: Sampling)
        requires
            is_arithmetic(*ar),
            at <= draws@.len(),
        ensures
            r == sampled(*ar, *self, draws@, at as int),
        decreases self,
    {
        match self {
            Region::Plane { point: _, normal: _ } => Sampling::Unbounded,
            Region::Union { regions } => {
                if regions.len() == 0 {
                    return Sampling::EmptyUnion;
                }
                if draws.len() <= at {
                    return Sampling::Index { count: regions.len() };
                }
                match draws[at] {
                    Drawn::Index(k) => {
                        if k < regions.len() {
                            regions[k].random_point_inside(draws, at + 1, ar)
                        } else {
                            Sampling::Again { keep: at }
                        }
                    },
                    Drawn::Number(_) => Sampling::Again { keep: at },
                }
            },
            Region::Intersect { regions } => {
                if regions.len() == 0 {
                    return Sampling::EmptyIntersect;
                }
                match regions[0].random_point_inside(draws, at, ar) {
                    Sampling::Inside { point } => {
                        if self.contains(&point, ar) {
                            Sampling::Inside { point }
                        } else {
                            Sampling::Again { keep: at }
                        }
                    },
                    other => other,
                }
            },
            _ => self.sample_simple(draws, at, ar),
        }
    }

    fn sample_simple<F: Fn(Op, Scalar, Scalar, Scalar) -> Scalar>(
        &self,
        draws: &Vec<Drawn>,
        at: usize,
        ar: &F,
    ) -> (r: Sampling)
        requires
            is_arithmetic(*ar),
            at <= draws@.len(),
        ensures
            r == sampled_simple(*ar, *self, draws@, at as int),
    {
        let mut numbers: Vec3 = [Scalar::zero(), Scalar::zero(), Scalar::zero()];
        let mut count: usize = 0;
        while count < 3 && count < draws.len() - at
            invariant
                at <= draws@.len(),
                count <= 3,
                count <= draws@.len() - at,
                forall|i: int|
                    0 <= i < count ==> #[trigger] draws@[at + i] == Drawn::Number(numbers[i]),
            decreases 3 - count,
        {
            match draws[at + count] {
                Drawn::Number(x) => {
                    numbers[count] = x;
                },
                Drawn::Index(_) => {
                    assert(!(draws@[at + count] is Number));
                    return Sampling::Again { keep: at };
                },
            }
            count = count + 1;
        }
        proof {
            assert forall|i: int| at <= i < draws@.len() && i < at + 3 implies (
            #[trigger] draws@[i]) is Number by {
                assert(draws@[at + (i - at)] == Drawn::Number(numbers[i - at]));
            }
            if count > 0 {
                assert(draws@[at + 0] == Drawn::Number(numbers[0]));
            }
            if count > 1 {
                assert(draws@[at + 1] == Drawn::Number(numbers[1]));
            }
            if count > 2 {
                assert(draws@[at + 2] == Drawn::Number(numbers[2]));
            }
        }
        if count == 3 {
            proof {
                assert(numbers =~= [
                    draws@[at as int]->Number_0,
                    draws@[at + 1]->Number_0,
                    draws@[at + 2]->Number_0,
                ]);
            }
            return match self.point_from_draws(numbers, ar) {
                Some(point) => Sampling::Inside { point },
                None => Sampling::Again { keep: at },
            };
        }
        match self {
            Region::Cylinder { center: _, radius: _, axis: _, lo: _, hi: _ } => {
                if count == 2 && !Scalar::one().ge(sum_squares(numbers[0], numbers[1], ar)) {
                    return Sampling::Again { keep: at };
                }
            },
            _ => {},
        }
        let (lo, hi): (Scalar, Scalar) = self.draw_range(count);
        Sampling::Number { lo, hi }
    }

    fn draw_range(&self, d: usize) -> (r: (Scalar, Scalar))
        requires
            d < 3,
        ensures
            r == range_of(*self, d as int),
    {
        match self {
            Region::Block { min, max } => (min[d], max[d]),
            Region::Cylinder { center: _, radius: _, axis: _, lo, hi } if d == 2 => (*lo, *hi),
            Region::Cone { center: _, axis: _, rad_lo: _, rad_hi: _, lo, hi } if d == 2 => (
                *lo,
                *hi,
            ),
            _ => (Scalar::minus_one(), Scalar::one()),
        }
    }

    fn point_from_draws<F: Fn(Op, Scalar, Scalar, Scalar) -> Scalar>(
        &self,
        draws: Vec3,
        ar: &F,
    ) -> (r: Option<Vec3>)
        requires
            is_arithmetic(*ar),
        ensures
            r == drawn_point(*ar, *self, draws),
    {
        let one: Scalar = Scalar::one();
        match self {
            Region::Sphere { center, radius } => {
                if one.ge(crate::vec3::norm_sq(draws, ar)) {
                    Some(crate::vec3::add(*center, crate::vec3::scale(draws, *radius, ar), ar))
                } else {
                    None
                }
            },
            Region::Cylinder { center, radius, axis, lo: _, hi: _ } => {
                if one.ge(sum_squares(draws[0], draws[1], ar)) {
                    Some(
                        compose_axis(
                            draws[2],
                            times(ar, draws[0], *radius),
                            times(ar, draws[1], *radius),
                            center,
                            *axis,
                            ar,
                        ),
                    )
                } else {
                    None
                }
            },
            Region::Cone { center, axis, rad_lo, rad_hi, lo, hi } => {
                let max_r: Scalar = rad_lo.max(*rad_hi);
                let u: Scalar = times(ar, draws[0], max_r);
                let v: Scalar = times(ar, draws[1], max_r);
                let height: Scalar = minus(ar, *hi, *lo);
                let t: Scalar = if tiny().lt(height.abs()) {
                    over(ar, minus(ar, draws[2], *lo), height)
                } else {
                    Scalar::half()
                };
                let r_at: Scalar = plus(ar, *rad_lo, times(ar, t, minus(ar, *rad_hi, *rad_lo)));
                if times(ar, r_at, r_at).ge(sum_squares(u, v, ar)) {
                    Some(compose_axis(draws[2], u, v, center, *axis, ar))
                } else {
                    None
                }
            },
            _ => Some(draws),
        }
    }
}

/// A point drawn between the bounds of a block lies in the block.
pub proof fn drawn_block_points_are_inside<F: Fn(Op, Scalar, Scalar, Scalar) -> Scalar>(
    ar: F,
    min: Vec3,
    max: Vec3,
    draws: Seq<Drawn>,
    at: int,
)
    requires
        0 <= at,
        at + 3 <= draws.len(),
        forall|d: int|
            0 <= d < 3 ==> (#[trigger] draws[at + d] matches Drawn::Number(x) && x.at_least(min[d])
                && x.below(max[d])),
    ensures
        sampled(ar, Region::Block { min, max }, draws, at) matches Sampling::Inside { point }
            && inside(ar, Region::Block { min, max }, point),
{
    assert(draws[at + 0] is Number && draws[at + 1] is Number && draws[at + 2] is Number);
}

/// A point that is returned for an intersection lies in all of its regions.
pub proof fn drawn_intersection_points_are_inside<F: Fn(Op, Scalar, Scalar, Scalar) -> Scalar>(
    ar: F,
    regions: Vec<Region>,
    draws: Seq<Drawn>,
    at: int,
    point: Vec3,
)
    requires
        sampled(ar, Region::Intersect { regions }, draws, at) == (Sampling::Inside { point }),
    ensures
        forall|k: int| 0 <= k < regions@.len() ==> inside(ar, #[trigger] regions@[k], point),
{
    intersection_is_and(ar, regions, point, regions@.len());
}

/// A point that is returned for a union is one that its region that was drawn
/// returns.
pub proof fn drawn_union_points_come_from_a_part<F: Fn(Op, Scalar, Scalar, Scalar) -> Scalar>(
    ar: F,
    regions: Vec<Region>,
    draws: Seq<Drawn>,
    at: int,
    point: Vec3,
)
    requires
        0 <= at,
        sampled(ar, Region::Union { regions }, draws, at) == (Sampling::Inside { point }),
    ensures
        exists|k: int|
            0 <= k < regions@.len() && sampled(ar, #[trigger] regions@[k], draws, at + 1) == (
            Sampling::Inside { point }),
{
    match draws[at] {
        Drawn::Index(k) => {
            assert(sampled(ar, regions@[k as int], draws, at + 1) == (Sampling::Inside { point }));
        },
        Drawn::Number(_) => {},
    }
}

} // verus!

//! The distances of unions and intersections bound those of their surfaces.

use crate::exact::{lemma_negated, lemma_order, lemma_sign, num};
use crate::geometry::{apart, lemma_square_order, Point};
use crate::region::{
    closest, closest_parts, decides, depth_of, first_by, first_is_preferred, inside, lemma_parts,
    PartSurface, Region, Rule,
};
use crate::scalar::{Op, Scalar, Vec3};
use vstd::prelude::*;

verus! {

/// Point `q` is no closer to the position `p` than the distance says.
pub open spec fn bounds(distance: Scalar, p: Point, q: Point) -> bool {
    !distance.nan() && apart(p, q) >= num(distance) * num(distance)
}

/// The absolute value as a real.
proof fn lemma_magnitude(x: Scalar)
    ensures
        num(x.absolute()) * num(x.absolute()) == num(x) * num(x),
        num(x.absolute()) >= 0real,
        x.absolute().nan() == x.nan(),
{
    let y: Scalar = x.absolute();
    assert(y.magnitude() == x.magnitude());
    assert(y.units() == x.units());
    lemma_negated(x);
    lemma_sign(y);
    lemma_sign(x);
    let v: real = num(x);
    assert((-v) * (-v) == v * v) by (nonlinear_arith);
    if x.negative() {
        assert(x.negated() == y);
    } else {
        assert(x == y);
    }
}

/// A distance of smaller absolute value bounds what one of greater value bounds.
proof fn lemma_smaller_bounds(a: Scalar, b: Scalar, p: Point, q: Point)
    requires
        !a.nan(),
        bounds(b, p, q),
        !b.absolute().below(a.absolute()),
    ensures
        bounds(a, p, q),
{
    lemma_magnitude(a);
    lemma_magnitude(b);
    lemma_order(b.absolute(), a.absolute());
    lemma_square_order(num(a.absolute()), num(b.absolute()));
}

/// From outside a union no point of it is closer than the distance says, where that
/// is so of the part that the point lies in.
pub proof fn union_distance_bounds_outside<F: Fn(Op, Scalar, Scalar, Scalar) -> Scalar>(
    ar: F,
    regions: Vec<Region>,
    pos: Vec3,
    p: Point,
    q: Point,
    i: int,
)
    requires
        0 <= i < regions@.len(),
        forall|k: int|
            0 <= k < regions@.len() ==> !closest(ar, #[trigger] regions@[k], pos).distance.nan(),
        forall|k: int| 0 <= k < regions@.len() ==> !inside(ar, #[trigger] regions@[k], pos),
        bounds(closest(ar, regions@[i], pos).distance, p, q),
    ensures
        bounds(closest(ar, Region::Union { regions }, pos).distance, p, q),
{
    let n: nat = regions@.len();
    let parts: Seq<PartSurface> = closest_parts(ar, regions, pos, n);
    lemma_parts(ar, regions, pos, n);
    crate::region::union_takes_the_nearest_outside(ar, regions, pos, i);
    assert forall|k: int| 0 <= k < n implies !(#[trigger] parts[k]).depth.nan() by {
        assert(parts[k].result == closest(ar, regions@[k], pos));
    }
    first_is_preferred(Rule::Least, parts, n as int);
    let best: int = first_by(Rule::Least, parts, n as int);
    assert(parts[best].result == closest(ar, regions@[best], pos));
    lemma_smaller_bounds(
        parts[best].result.distance,
        closest(ar, regions@[i], pos).distance,
        p,
        q,
    );
}

/// From inside a union no point of its surface is closer than the distance says: such
/// a point lies in the interior of no part, and is no closer than the distance of any
/// part that contains the position.
pub proof fn union_distance_bounds_inside<F: Fn(Op, Scalar, Scalar, Scalar) -> Scalar>(
    ar: F,
    regions: Vec<Region>,
    pos: Vec3,
    p: Point,
    q: Point,
)
    requires
        forall|k: int|
            0 <= k < regions@.len() ==> !closest(ar, #[trigger] regions@[k], pos).distance.nan(),
        exists|k: int|
            0 <= k < regions@.len() && inside(ar, #[trigger] regions@[k], pos) && num(
                closest(ar, regions@[k], pos).distance,
            ) != 0real,
        forall|k: int|
            0 <= k < regions@.len() && inside(ar, #[trigger] regions@[k], pos) ==> bounds(
                closest(ar, regions@[k], pos).distance,
                p,
                q,
            ),
    ensures
        bounds(closest(ar, Region::Union { regions }, pos).distance, p, q),
{
    let n: nat = regions@.len();
    let parts: Seq<PartSurface> = closest_parts(ar, regions, pos, n);
    lemma_parts(ar, regions, pos, n);
    assert forall|k: int| 0 <= k < n implies !(#[trigger] parts[k]).depth.nan() by {
        assert(parts[k].result == closest(ar, regions@[k], pos));
    }
    first_is_preferred(Rule::Least, parts, n as int);
    let best: int = first_by(Rule::Least, parts, n as int);
    assert(parts[best].result == closest(ar, regions@[best], pos));
    let i: int = choose|k: int|
        0 <= k < regions@.len() && inside(ar, #[trigger] regions@[k], pos) && num(
            closest(ar, regions@[k], pos).distance,
        ) != 0real;
    assert(parts[i].result == closest(ar, regions@[i], pos));
    assert(!decides(Rule::Least, parts[i], parts[best]));
    lemma_order(parts[i].depth, parts[best].depth);
    let d: Scalar = parts[i].result.distance;
    lemma_magnitude(d);
    lemma_negated(d.absolute());
    let v: real = num(d);
    assert(v * v != 0real) by (nonlinear_arith)
        requires
            v != 0real,
    ;
    assert(num(d.absolute()) != 0real) by {
        assert(0real * 0real == 0real);
    }
    assert(num(parts[i].depth) < 0real);
    lemma_magnitude(parts[best].result.distance);
    assert(inside(ar, regions@[best], pos));
}

/// From outside an intersection no point of it is closer than the distance says: such
/// a point lies in all parts, and is no closer than the distance of any part that does
/// not contain the position.
pub proof fn intersection_distance_bounds_outside<F: Fn(Op, Scalar, Scalar, Scalar) -> Scalar>(
    ar: F,
    regions: Vec<Region>,
    pos: Vec3,
    p: Point,
    q: Point,
)
    requires
        forall|k: int|
            0 <= k < regions@.len() ==> !closest(ar, #[trigger] regions@[k], pos).distance.nan(),
        exists|k: int| 0 <= k < regions@.len() && !inside(ar, #[trigger] regions@[k], pos),
        forall|k: int|
            0 <= k < regions@.len() && (!inside(ar, #[trigger] regions@[k], pos) || num(
                closest(ar, regions@[k], pos).distance,
            ) == 0real) ==> bounds(closest(ar, regions@[k], pos).distance, p, q),
    ensures
        bounds(closest(ar, Region::Intersect { regions }, pos).distance, p, q),
{
    let n: nat = regions@.len();
    let parts: Seq<PartSurface> = closest_parts(ar, regions, pos, n);
    lemma_parts(ar, regions, pos, n);
    assert forall|k: int| 0 <= k < n implies !(#[trigger] parts[k]).depth.nan() by {
        assert(parts[k].result == closest(ar, regions@[k], pos));
    }
    let i: int = choose|k: int| 0 <= k < regions@.len() && !inside(ar, #[trigger] regions@[k], pos);
    assert(parts[i].result == closest(ar, regions@[i], pos));
    lemma_magnitude(parts[i].result.distance);
    lemma_order(parts[i].depth, Scalar::zero());
    crate::exact::lemma_constants();
    first_is_preferred(Rule::Greatest, parts, n as int);
    first_is_preferred(Rule::Nearest, parts, n as int);
    let far: int = first_by(Rule::Greatest, parts, n as int);
    let near: int = first_by(Rule::Nearest, parts, n as int);
    assert(!decides(Rule::Greatest, parts[i], parts[far]));
    assert(!decides(Rule::Nearest, parts[i], parts[near]));
    lemma_order(parts[far].depth, parts[i].depth);
    lemma_order(parts[near].depth, Scalar::zero());
    lemma_outside_or_zero(ar, regions@[far], pos, parts[far]);
    lemma_outside_or_zero(ar, regions@[near], pos, parts[near]);
}

proof fn lemma_outside_or_zero<F: Fn(Op, Scalar, Scalar, Scalar) -> Scalar>(
    ar: F,
    region: Region,
    pos: Vec3,
    part: PartSurface,
)
    requires
        part.result == closest(ar, region, pos),
        part.depth == depth_of(ar, region, pos, part.result.distance),
    ensures
        num(part.depth) >= 0real ==> !inside(ar, region, pos) || num(part.result.distance) == 0real,
{
    let d: Scalar = part.result.distance;
    lemma_magnitude(d);
    lemma_negated(d.absolute());
    if num(part.depth) >= 0real && inside(ar, region, pos) {
        let v: real = num(d);
        assert(num(d.absolute()) == 0real);
        assert(0real * 0real == 0real);
        assert(v * v == 0real ==> v == 0real) by (nonlinear_arith);
    }
}

/// From inside an intersection no point of its surface is closer than the distance
/// says: such a point does not lie in the interior of one of the parts.
pub proof fn intersection_distance_bounds_inside<F: Fn(Op, Scalar, Scalar, Scalar) -> Scalar>(
    ar: F,
    regions: Vec<Region>,
    pos: Vec3,
    p: Point,
    q: Point,
    i: int,
)
    requires
        0 <= i < regions@.len(),
        forall|k: int|
            0 <= k < regions@.len() ==> !closest(ar, #[trigger] regions@[k], pos).distance.nan(),
        forall|k: int| 0 <= k < regions@.len() ==> inside(ar, #[trigger] regions@[k], pos),
        bounds(closest(ar, regions@[i], pos).distance, p, q),
    ensures
        bounds(closest(ar, Region::Intersect { regions }, pos).distance, p, q),
{
    let n: nat = regions@.len();
    let parts: Seq<PartSurface> = closest_parts(ar, regions, pos, n);
    lemma_parts(ar, regions, pos, n);
    crate::region::intersection_takes_the_nearest_inside(ar, regions, pos, i);
    assert forall|k: int| 0 <= k < n implies !(#[trigger] parts[k]).depth.nan() by {
        assert(parts[k].result == closest(ar, regions@[k], pos));
    }
    first_is_preferred(Rule::Greatest, parts, n as int);
    first_is_preferred(Rule::Nearest, parts, n as int);
    let far: int = first_by(Rule::Greatest, parts, n as int);
    let near: int = first_by(Rule::Nearest, parts, n as int);
    assert(parts[far].result == closest(ar, regions@[far], pos));
    assert(parts[near].result == closest(ar, regions@[near], pos));
    lemma_smaller_bounds(
        closest(ar, Region::Intersect { regions }, pos).distance,
        closest(ar, regions@[i], pos).distance,
        p,
        q,
    );
}

} // verus!

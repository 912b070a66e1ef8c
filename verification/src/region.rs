//! Regions of space: which points they contain, and the closest point of
//! their surface.

use crate::scalar::{
    difference, is_arithmetic, minus, over, plus, product, quotient, root, sqrt, sum, times, Op,
    Scalar, Vec3,
};
use crate::vec3::{dot_of, minus_of, norm, norm_of};
use vstd::prelude::*;

verus! {

/// A coordinate axis.
#[derive(Clone, Copy, PartialEq, Eq, Structural, Debug)]
pub enum Axis {
    X,
    Y,
    Z,
}

/// The closest point of a surface, the normal there, and the distance,
/// negative inside.
#[derive(Clone, Copy, Debug)]
pub struct SurfaceResult {
    pub point: Vec3,
    pub normal: Vec3,
    pub distance: Scalar,
}

/// A region of space.
#[allow(inconsistent_fields)]
pub enum Region {
    Block { min: Vec3, max: Vec3 },
    Sphere { center: Vec3, radius: Scalar },
    Cylinder { center: [Scalar; 2], radius: Scalar, axis: Axis, lo: Scalar, hi: Scalar },
    Cone {
        center: [Scalar; 2],
        axis: Axis,
        rad_lo: Scalar,
        rad_hi: Scalar,
        lo: Scalar,
        hi: Scalar,
    },
    Plane { point: Vec3, normal: Vec3 },
    Union { regions: Vec<Region> },
    Intersect { regions: Vec<Region> },
}

/// 10^-30: what counts as zero length.
#[verifier::allow_in_spec]
pub fn tiny() -> (r: Scalar)
    returns
        (Scalar { bits: 0x39b4_484b_feeb_c2a0 }),
{
    Scalar { bits: 0x39b4_484b_feeb_c2a0 }
}

/// The coordinate along the axis and the two across it, from the centre line.
pub open spec fn decomposed<F: Fn(Op, Scalar, Scalar, Scalar) -> Scalar>(
    ar: F,
    pos: Vec3,
    center: [Scalar; 2],
    axis: Axis,
) -> (Scalar, Scalar, Scalar) {
    match axis {
        Axis::X => (pos[0], difference(ar, pos[1], center[0]), difference(ar, pos[2], center[1])),
        Axis::Y => (pos[1], difference(ar, pos[0], center[0]), difference(ar, pos[2], center[1])),
        Axis::Z => (pos[2], difference(ar, pos[0], center[0]), difference(ar, pos[1], center[1])),
    }
}

/// The point at a coordinate along the axis and an offset from the centre line.
pub open spec fn composed<F: Fn(Op, Scalar, Scalar, Scalar) -> Scalar>(
    ar: F,
    axial: Scalar,
    r0: Scalar,
    r1: Scalar,
    center: [Scalar; 2],
    axis: Axis,
) -> Vec3 {
    along_axis(axial, sum(ar, center[0], r0), sum(ar, center[1], r1), axis)
}

/// The vector with the given components along the axis and across it.
pub open spec fn along_axis(axial: Scalar, n0: Scalar, n1: Scalar, axis: Axis) -> Vec3 {
    match axis {
        Axis::X => [axial, n0, n1],
        Axis::Y => [n0, axial, n1],
        Axis::Z => [n0, n1, axial],
    }
}

fn decompose_axis<F: Fn(Op, Scalar, Scalar, Scalar) -> Scalar>(
    pos: &Vec3,
    center: &[Scalar; 2],
    axis: Axis,
    ar: &F,
) -> (r: (Scalar, Scalar, Scalar))
    requires
        is_arithmetic(*ar),
    ensures
        r == decomposed(*ar, *pos, *center, axis),
{
    match axis {
        Axis::X => (pos[0], minus(ar, pos[1], center[0]), minus(ar, pos[2], center[1])),
        Axis::Y => (pos[1], minus(ar, pos[0], center[0]), minus(ar, pos[2], center[1])),
        Axis::Z => (pos[2], minus(ar, pos[0], center[0]), minus(ar, pos[1], center[1])),
    }
}

fn compose_normal(axial: Scalar, n0: Scalar, n1: Scalar, axis: Axis) -> (r: Vec3)
    ensures
        r == along_axis(axial, n0, n1, axis),
{
    match axis {
        Axis::X => [axial, n0, n1],
        Axis::Y => [n0, axial, n1],
        Axis::Z => [n0, n1, axial],
    }
}

pub(crate) fn compose_axis<F: Fn(Op, Scalar, Scalar, Scalar) -> Scalar>(
    axial: Scalar,
    r0: Scalar,
    r1: Scalar,
    center: &[Scalar; 2],
    axis: Axis,
    ar: &F,
) -> (r: Vec3)
    requires
        is_arithmetic(*ar),
    ensures
        r == composed(*ar, axial, r0, r1, *center, axis),
{
    compose_normal(axial, plus(ar, center[0], r0), plus(ar, center[1], r1), axis)
}

/// Decomposing the composed point gives the coordinate along the axis back.
pub proof fn axis_round_trip<F: Fn(Op, Scalar, Scalar, Scalar) -> Scalar>(
    ar: F,
    axial: Scalar,
    r0: Scalar,
    r1: Scalar,
    center: [Scalar; 2],
    axis: Axis,
)
    ensures
        ({
            let (a, b, c) = decomposed(
                ar,
                composed(ar, axial, r0, r1, center, axis),
                center,
                axis,
            );
            &&& a == axial
            &&& b == difference(ar, sum(ar, center[0], r0), center[0])
            &&& c == difference(ar, sum(ar, center[1], r1), center[1])
        }),
{
}

/// Between `min` and `max` on every axis.
pub open spec fn in_block(pos: Vec3, min: Vec3, max: Vec3) -> bool {
    forall|d: int|
        0 <= d < 3 ==> (#[trigger] pos[d]).at_least(min[d]) && max[d].at_least(pos[d])
}

fn block_contains(pos: &Vec3, min: &Vec3, max: &Vec3) -> (r: bool)
    ensures
        r == in_block(*pos, *min, *max),
{
    let x: bool = pos[0].ge(min[0]) && max[0].ge(pos[0]);
    let y: bool = pos[1].ge(min[1]) && max[1].ge(pos[1]);
    let z: bool = pos[2].ge(min[2]) && max[2].ge(pos[2]);
    assert(pos[0] == pos[0] && pos[1] == pos[1] && pos[2] == pos[2]);
    x && y && z
}

/// `a * a + b * b`.
pub open spec fn squares<F: Fn(Op, Scalar, Scalar, Scalar) -> Scalar>(ar: F, a: Scalar, b: Scalar) -> Scalar {
    sum(ar, product(ar, a, a), product(ar, b, b))
}

/// The radius of a cone at a coordinate along its axis.
pub open spec fn cone_radius<F: Fn(Op, Scalar, Scalar, Scalar) -> Scalar>(
    ar: F,
    axial: Scalar,
    rad_lo: Scalar,
    rad_hi: Scalar,
    lo: Scalar,
    hi: Scalar,
) -> Scalar {
    let t = if tiny().below(difference(ar, hi, lo).absolute()) {
        quotient(ar, difference(ar, axial, lo), difference(ar, hi, lo))
    } else {
        Scalar::half()
    };
    sum(ar, rad_lo, product(ar, t, difference(ar, rad_hi, rad_lo)))
}

/// The region contains the point.
pub open spec fn inside<F: Fn(Op, Scalar, Scalar, Scalar) -> Scalar>(ar: F, region: Region, pos: Vec3) -> bool
    decreases region,
{
    match region {
        Region::Block { min, max } => in_block(pos, min, max),
        Region::Sphere { center, radius } => product(ar, radius, radius).at_least(
            dot_of(ar, minus_of(ar, pos, center), minus_of(ar, pos, center)),
        ),
        Region::Cylinder { center, radius, axis, lo, hi } => {
            let (axial, r0, r1) = decomposed(ar, pos, center, axis);
            axial.at_least(lo) && hi.at_least(axial) && product(ar, radius, radius).at_least(
                squares(ar, r0, r1),
            )
        },
        Region::Cone { center, axis, rad_lo, rad_hi, lo, hi } => {
            let (axial, r0, r1) = decomposed(ar, pos, center, axis);
            let r = cone_radius(ar, axial, rad_lo, rad_hi, lo, hi);
            !axial.below(lo) && !hi.below(axial) && product(ar, r, r).at_least(squares(ar, r0, r1))
        },
        Region::Plane { point, normal } => dot_of(
            ar,
            minus_of(ar, pos, point),
            normal,
        ).at_least(Scalar::zero()),
        Region::Union { regions } => inside_any(ar, regions, pos, regions@.len()),
        Region::Intersect { regions } => inside_all(ar, regions, pos, regions@.len()),
    }
}

/// One of the first `k` regions contains the point.
pub open spec fn inside_any<F: Fn(Op, Scalar, Scalar, Scalar) -> Scalar>(
    ar: F,
    regions: Vec<Region>,
    pos: Vec3,
    k: nat,
) -> bool
    decreases regions, k,
{
    k > 0 && k <= regions@.len() && (inside_any(ar, regions, pos, (k - 1) as nat) || inside(
        ar,
        regions@[k - 1],
        pos,
    ))
}

/// All of the first `k` regions contain the point.
pub open spec fn inside_all<F: Fn(Op, Scalar, Scalar, Scalar) -> Scalar>(
    ar: F,
    regions: Vec<Region>,
    pos: Vec3,
    k: nat,
) -> bool
    decreases regions, k,
{
    k == 0 || k > regions@.len() || (inside_all(ar, regions, pos, (k - 1) as nat) && inside(
        ar,
        regions@[k - 1],
        pos,
    ))
}

/// A union contains the points that one of its regions contains.
pub proof fn union_is_or<F: Fn(Op, Scalar, Scalar, Scalar) -> Scalar>(
    ar: F,
    regions: Vec<Region>,
    pos: Vec3,
    k: nat,
)
    requires
        k <= regions@.len(),
    ensures
        inside_any(ar, regions, pos, k) <==> exists|i: int|
            0 <= i < k && inside(ar, #[trigger] regions@[i], pos),
    decreases k,
{
    if k > 0 {
        union_is_or(ar, regions, pos, (k - 1) as nat);
        if inside(ar, regions@[k - 1], pos) {
            assert(0 <= k - 1 < k && inside(ar, regions@[k - 1], pos));
        }
    }
}

/// An intersection contains the points that all of its regions contain.
pub proof fn intersection_is_and<F: Fn(Op, Scalar, Scalar, Scalar) -> Scalar>(
    ar: F,
    regions: Vec<Region>,
    pos: Vec3,
    k: nat,
)
    requires
        k <= regions@.len(),
    ensures
        inside_all(ar, regions, pos, k) <==> forall|i: int|
            0 <= i < k ==> inside(ar, #[trigger] regions@[i], pos),
    decreases k,
{
    if k > 0 {
        intersection_is_and(ar, regions, pos, (k - 1) as nat);
        if forall|i: int| 0 <= i < k ==> inside(ar, #[trigger] regions@[i], pos) {
            assert(inside(ar, regions@[k - 1], pos));
        }
    }
}

impl Region {
    /// Whether the region contains the point.
    pub fn contains<F: Fn(Op, Scalar, Scalar, Scalar) -> Scalar>(&self, pos: &Vec3, ar: &F) -> (r: bool)
        requires
            is_arithmetic(*ar),
        ensures
            r == inside(*ar, *self, *pos),
        decreases self,
    {
        match self {
            Region::Block { min, max } => block_contains(pos, min, max),
            Region::Sphere { center, radius } => {
                let d: Vec3 = crate::vec3::sub(*pos, *center, ar);
                times(ar, *radius, *radius).ge(crate::vec3::norm_sq(d, ar))
            },
            Region::Cylinder { center, radius, axis, lo, hi } => {
                let (axial, r0, r1): (Scalar, Scalar, Scalar) = decompose_axis(
                    pos,
                    center,
                    *axis,
                    ar,
                );
                axial.ge(*lo) && hi.ge(axial) && times(ar, *radius, *radius).ge(
                    sum_squares(r0, r1, ar),
                )
            },
            Region::Cone { center, axis, rad_lo, rad_hi, lo, hi } => {
                let (axial, r0, r1): (Scalar, Scalar, Scalar) = decompose_axis(
                    pos,
                    center,
                    *axis,
                    ar,
                );
                if axial.lt(*lo) || hi.lt(axial) {
                    return false;
                }
                let height: Scalar = minus(ar, *hi, *lo);
                let t: Scalar = if tiny().lt(height.abs()) {
                    over(ar, minus(ar, axial, *lo), height)
                } else {
                    Scalar::half()
                };
                let r_at: Scalar = plus(ar, *rad_lo, times(ar, t, minus(ar, *rad_hi, *rad_lo)));
                times(ar, r_at, r_at).ge(sum_squares(r0, r1, ar))
            },
            Region::Plane { point, normal } => {
                let d: Vec3 = crate::vec3::sub(*pos, *point, ar);
                crate::vec3::dot(d, *normal, ar).ge(Scalar::zero())
            },
            Region::Union { regions } => {
                let mut k: usize = 0;
                while k < regions.len()
                    invariant
                        is_arithmetic(*ar),
                        k <= regions@.len(),
                        !inside_any(*ar, *regions, *pos, k as nat),
                        *self == (Region::Union { regions: *regions }),
                        decreases_to!(self => regions),
                    decreases regions.len() - k,
                {
                    if regions[k].contains(pos, ar) {
                        proof {
                            union_is_or(*ar, *regions, *pos, regions@.len());
                            assert(inside(*ar, regions@[k as int], *pos));
                        }
                        return true;
                    }
                    k = k + 1;
                }
                false
            },
            Region::Intersect { regions } => {
                let mut k: usize = 0;
                while k < regions.len()
                    invariant
                        is_arithmetic(*ar),
                        k <= regions@.len(),
                        inside_all(*ar, *regions, *pos, k as nat),
                        *self == (Region::Intersect { regions: *regions }),
                        decreases_to!(self => regions),
                    decreases regions.len() - k,
                {
                    if !regions[k].contains(pos, ar) {
                        proof {
                            intersection_is_and(*ar, *regions, *pos, regions@.len());
                            assert(!inside(*ar, regions@[k as int], *pos));
                        }
                        return false;
                    }
                    k = k + 1;
                }
                true
            },
        }
    }
}

pub(crate) fn sum_squares<F: Fn(Op, Scalar, Scalar, Scalar) -> Scalar>(a: Scalar, b: Scalar, ar: &F) -> (r: Scalar)
    requires
        is_arithmetic(*ar),
    ensures
        r == squares(*ar, a, b),
{
    plus(ar, times(ar, a, a), times(ar, b, b))
}

/// The closest point `point` seen from outside: the normal points to `pos`,
/// and is `fallback` where `pos` lies on the surface.
pub open spec fn from_outside<F: Fn(Op, Scalar, Scalar, Scalar) -> Scalar>(
    ar: F,
    pos: Vec3,
    point: Vec3,
    fallback: Vec3,
) -> SurfaceResult {
    let d = minus_of(ar, pos, point);
    let dist = norm_of(ar, d);
    if dist.below(tiny()) {
        SurfaceResult { point, normal: fallback, distance: Scalar::zero() }
    } else {
        SurfaceResult {
            point,
            normal: [quotient(ar, d[0], dist), quotient(ar, d[1], dist), quotient(ar, d[2], dist)],
            distance: dist,
        }
    }
}

fn outside_result<F: Fn(Op, Scalar, Scalar, Scalar) -> Scalar>(
    pos: &Vec3,
    point: Vec3,
    fallback: Vec3,
    ar: &F,
) -> (r: SurfaceResult)
    requires
        is_arithmetic(*ar),
    ensures
        r == from_outside(*ar, *pos, point, fallback),
{
    let d: Vec3 = crate::vec3::sub(*pos, point, ar);
    let dist: Scalar = norm(d, ar);
    if dist.lt(tiny()) {
        SurfaceResult { point, normal: fallback, distance: Scalar::zero() }
    } else {
        SurfaceResult {
            point,
            normal: [over(ar, d[0], dist), over(ar, d[1], dist), over(ar, d[2], dist)],
            distance: dist,
        }
    }
}

/// The place of the first of the least elements among the first `k`.
pub open spec fn least_at(s: Seq<Scalar>, k: int) -> int
    decreases k,
{
    if k <= 1 {
        0
    } else {
        let b: int = least_at(s, k - 1);
        if s[k - 1].below(s[b]) {
            k - 1
        } else {
            b
        }
    }
}

/// No element is below the chosen one, where none is a NaN.
pub proof fn least_is_least(s: Seq<Scalar>, k: int)
    requires
        1 <= k <= s.len(),
        forall|i: int| 0 <= i < k ==> !(#[trigger] s[i]).nan(),
    ensures
        0 <= least_at(s, k) < k,
        forall|i: int| 0 <= i < k ==> !(#[trigger] s[i]).below(s[least_at(s, k)]),
    decreases k,
{
    if k > 1 {
        least_is_least(s, k - 1);
    }
}

fn find_least(s: &Vec<Scalar>) -> (r: usize)
    requires
        s@.len() > 0,
    ensures
        r == least_at(s@, s@.len() as int),
        r < s@.len(),
{
    let mut best: usize = 0;
    let mut k: usize = 1;
    while k < s.len()
        invariant
            1 <= k <= s@.len(),
            best < k,
            best == least_at(s@, k as int),
        decreases s.len() - k,
    {
        if s[k].lt(s[best]) {
            best = k;
        }
        k = k + 1;
    }
    best
}

/// The distances to the faces of a block: low and high face of each axis.
pub open spec fn face_distances<F: Fn(Op, Scalar, Scalar, Scalar) -> Scalar>(
    ar: F,
    pos: Vec3,
    min: Vec3,
    max: Vec3,
) -> Seq<Scalar> {
    seq![
        difference(ar, pos[0], min[0]),
        difference(ar, max[0], pos[0]),
        difference(ar, pos[1], min[1]),
        difference(ar, max[1], pos[1]),
        difference(ar, pos[2], min[2]),
        difference(ar, max[2], pos[2]),
    ]
}

/// The unit vector out of face `f` of a block.
pub open spec fn face_normal(f: int) -> Vec3 {
    let out = if f % 2 == 0 {
        Scalar::minus_one()
    } else {
        Scalar::one()
    };
    crate::ghosts::along(f / 2, out)
}

/// `pos` moved to face `f` of a block.
pub open spec fn on_face(pos: Vec3, min: Vec3, max: Vec3, f: int) -> Vec3 {
    let face = if f % 2 == 0 {
        min
    } else {
        max
    };
    [
        if f / 2 == 0 {
            face[0]
        } else {
            pos[0]
        },
        if f / 2 == 1 {
            face[1]
        } else {
            pos[1]
        },
        if f / 2 == 2 {
            face[2]
        } else {
            pos[2]
        },
    ]
}

/// The closest point of a block: from outside the clamped point, from inside
/// the foot on the nearest face.
pub open spec fn closest_on_block<F: Fn(Op, Scalar, Scalar, Scalar) -> Scalar>(
    ar: F,
    pos: Vec3,
    min: Vec3,
    max: Vec3,
) -> SurfaceResult {
    if !in_block(pos, min, max) {
        let foot = [
            pos[0].clamped(min[0], max[0]),
            pos[1].clamped(min[1], max[1]),
            pos[2].clamped(min[2], max[2]),
        ];
        from_outside(ar, pos, foot, crate::ghosts::along(2, Scalar::one()))
    } else {
        let f = least_at(face_distances(ar, pos, min, max), 6);
        SurfaceResult {
            point: on_face(pos, min, max, f),
            normal: face_normal(f),
            distance: face_distances(ar, pos, min, max)[f].negated(),
        }
    }
}

fn closest_point_block<F: Fn(Op, Scalar, Scalar, Scalar) -> Scalar>(
    pos: &Vec3,
    min: &Vec3,
    max: &Vec3,
    ar: &F,
) -> (r: SurfaceResult)
    requires
        is_arithmetic(*ar),
        max[0].at_least(min[0]) && max[1].at_least(min[1]) && max[2].at_least(min[2]),
    ensures
        r == closest_on_block(*ar, *pos, *min, *max),
{
    if !block_contains(pos, min, max) {
        let foot: Vec3 = [
            pos[0].clamp(min[0], max[0]),
            pos[1].clamp(min[1], max[1]),
            pos[2].clamp(min[2], max[2]),
        ];
        let up: Vec3 = crate::ghosts::offset_along(2, Scalar::one());
        return outside_result(pos, foot, up, ar);
    }
    let mut distances: Vec<Scalar> = Vec::new();
    distances.push(minus(ar, pos[0], min[0]));
    distances.push(minus(ar, max[0], pos[0]));
    distances.push(minus(ar, pos[1], min[1]));
    distances.push(minus(ar, max[1], pos[1]));
    distances.push(minus(ar, pos[2], min[2]));
    distances.push(minus(ar, max[2], pos[2]));
    assert(distances@ =~= face_distances(*ar, *pos, *min, *max));
    let f: usize = find_least(&distances);
    let out: Scalar = if f % 2 == 0 {
        Scalar::minus_one()
    } else {
        Scalar::one()
    };
    let normal: Vec3 = crate::ghosts::offset_along(f / 2, out);
    let mut point: Vec3 = *pos;
    point[f / 2] = if f % 2 == 0 {
        min[f / 2]
    } else {
        max[f / 2]
    };
    assert(point =~= on_face(*pos, *min, *max, f as int));
    SurfaceResult { point, normal, distance: distances[f].neg() }
}

/// The closest point of a sphere.
pub open spec fn closest_on_sphere<F: Fn(Op, Scalar, Scalar, Scalar) -> Scalar>(
    ar: F,
    pos: Vec3,
    center: Vec3,
    radius: Scalar,
) -> SurfaceResult {
    let d = minus_of(ar, pos, center);
    let dist = norm_of(ar, d);
    if dist.below(tiny()) {
        SurfaceResult {
            point: [sum(ar, center[0], radius), center[1], center[2]],
            normal: crate::ghosts::along(0, Scalar::one()),
            distance: radius.negated(),
        }
    } else {
        let inv = quotient(ar, Scalar::one(), dist);
        let n = crate::vec3::scaled(ar, d, inv);
        SurfaceResult {
            point: crate::vec3::plus_of(ar, center, crate::vec3::scaled(ar, n, radius)),
            normal: n,
            distance: difference(ar, dist, radius),
        }
    }
}

fn closest_point_sphere<F: Fn(Op, Scalar, Scalar, Scalar) -> Scalar>(
    pos: &Vec3,
    center: &Vec3,
    radius: Scalar,
    ar: &F,
) -> (r: SurfaceResult)
    requires
        is_arithmetic(*ar),
    ensures
        r == closest_on_sphere(*ar, *pos, *center, radius),
{
    let d: Vec3 = crate::vec3::sub(*pos, *center, ar);
    let dist: Scalar = norm(d, ar);
    if dist.lt(tiny()) {
        let point: Vec3 = [plus(ar, center[0], radius), center[1], center[2]];
        return SurfaceResult {
            point,
            normal: crate::ghosts::offset_along(0, Scalar::one()),
            distance: radius.neg(),
        };
    }
    let n: Vec3 = crate::vec3::scale(d, over(ar, Scalar::one(), dist), ar);
    SurfaceResult {
        point: crate::vec3::add(*center, crate::vec3::scale(n, radius, ar), ar),
        normal: n,
        distance: minus(ar, dist, radius),
    }
}

/// The closest point of a plane.
pub open spec fn closest_on_plane<F: Fn(Op, Scalar, Scalar, Scalar) -> Scalar>(
    ar: F,
    pos: Vec3,
    point: Vec3,
    normal: Vec3,
) -> SurfaceResult {
    let mag = norm_of(ar, normal);
    let n = if tiny().below(mag) {
        [quotient(ar, normal[0], mag), quotient(ar, normal[1], mag), quotient(ar, normal[2], mag)]
    } else {
        crate::ghosts::along(2, Scalar::one())
    };
    let dist = dot_of(ar, minus_of(ar, pos, point), n);
    SurfaceResult {
        point: [
            difference(ar, pos[0], product(ar, dist, n[0])),
            difference(ar, pos[1], product(ar, dist, n[1])),
            difference(ar, pos[2], product(ar, dist, n[2])),
        ],
        normal: n,
        distance: dist,
    }
}

fn closest_point_plane<F: Fn(Op, Scalar, Scalar, Scalar) -> Scalar>(
    pos: &Vec3,
    point: &Vec3,
    normal: &Vec3,
    ar: &F,
) -> (r: SurfaceResult)
    requires
        is_arithmetic(*ar),
    ensures
        r == closest_on_plane(*ar, *pos, *point, *normal),
{
    let mag: Scalar = norm(*normal, ar);
    let n: Vec3 = if tiny().lt(mag) {
        [over(ar, normal[0], mag), over(ar, normal[1], mag), over(ar, normal[2], mag)]
    } else {
        crate::ghosts::offset_along(2, Scalar::one())
    };
    let dist: Scalar = crate::vec3::dot(crate::vec3::sub(*pos, *point, ar), n, ar);
    let foot: Vec3 = [
        minus(ar, pos[0], times(ar, dist, n[0])),
        minus(ar, pos[1], times(ar, dist, n[1])),
        minus(ar, pos[2], times(ar, dist, n[2])),
    ];
    SurfaceResult { point: foot, normal: n, distance: dist }
}

/// The distance along the axis to the nearer end, for a point beyond an end.
pub open spec fn beyond<F: Fn(Op, Scalar, Scalar, Scalar) -> Scalar>(
    ar: F,
    axial: Scalar,
    lo: Scalar,
    hi: Scalar,
) -> Scalar {
    if axial.below(lo) {
        difference(ar, lo, axial)
    } else {
        difference(ar, axial, hi)
    }
}

/// Between the ends.
pub open spec fn between_ends(axial: Scalar, lo: Scalar, hi: Scalar) -> bool {
    axial.at_least(lo) && hi.at_least(axial)
}

/// The candidate on the curved surface of a cylinder: point, normal and distance.
pub open spec fn curved_candidate<F: Fn(Op, Scalar, Scalar, Scalar) -> Scalar>(
    ar: F,
    pos: Vec3,
    center: [Scalar; 2],
    radius: Scalar,
    axis: Axis,
    lo: Scalar,
    hi: Scalar,
) -> (Vec3, Vec3, Scalar) {
    let (axial, d0, d1) = decomposed(ar, pos, center, axis);
    let radial = root(ar, squares(ar, d0, d1));
    let at = axial.clamped(lo, hi);
    let zero = Scalar::zero();
    if radial.below(tiny()) {
        (
            composed(ar, at, radius, zero, center, axis),
            along_axis(zero, Scalar::one(), zero, axis),
            if between_ends(axial, lo, hi) {
                radius.negated()
            } else {
                root(ar, squares(ar, radius, beyond(ar, axial, lo, hi)))
            },
        )
    } else {
        let inv = quotient(ar, Scalar::one(), radial);
        let n0 = product(ar, d0, inv);
        let n1 = product(ar, d1, inv);
        let dr = difference(ar, radial, radius);
        (
            composed(ar, at, product(ar, n0, radius), product(ar, n1, radius), center, axis),
            along_axis(zero, n0, n1, axis),
            if between_ends(axial, lo, hi) {
                dr
            } else {
                let da = beyond(ar, axial, lo, hi);
                product(
                    ar,
                    root(ar, squares(ar, dr, da)),
                    if dr.below(zero) && da.magnitude() == 0 {
                        Scalar::minus_one()
                    } else {
                        Scalar::one()
                    },
                )
            },
        )
    }
}

fn curved_surface<F: Fn(Op, Scalar, Scalar, Scalar) -> Scalar>(
    pos: &Vec3,
    center: &[Scalar; 2],
    radius: Scalar,
    axis: Axis,
    lo: Scalar,
    hi: Scalar,
    ar: &F,
) -> (r: (Vec3, Vec3, Scalar))
    requires
        is_arithmetic(*ar),
        hi.at_least(lo),
    ensures
        r == curved_candidate(*ar, *pos, *center, radius, axis, lo, hi),
{
    let (axial, d0, d1): (Scalar, Scalar, Scalar) = decompose_axis(pos, center, axis, ar);
    let radial: Scalar = sqrt(ar, sum_squares(d0, d1, ar));
    let at: Scalar = axial.clamp(lo, hi);
    let axial_inside: bool = axial.ge(lo) && hi.ge(axial);
    let zero: Scalar = Scalar::zero();
    let da: Scalar = if axial.lt(lo) {
        minus(ar, lo, axial)
    } else {
        minus(ar, axial, hi)
    };
    if radial.lt(tiny()) {
        let dist: Scalar = if axial_inside {
            radius.neg()
        } else {
            sqrt(ar, sum_squares(radius, da, ar))
        };
        (
            compose_axis(at, radius, zero, center, axis, ar),
            compose_normal(zero, Scalar::one(), zero, axis),
            dist,
        )
    } else {
        let inv: Scalar = over(ar, Scalar::one(), radial);
        let n0: Scalar = times(ar, d0, inv);
        let n1: Scalar = times(ar, d1, inv);
        let dr: Scalar = minus(ar, radial, radius);
        let dist: Scalar = if axial_inside {
            dr
        } else {
            let sign: Scalar = if dr.lt(zero) && da.is_zero() {
                Scalar::minus_one()
            } else {
                Scalar::one()
            };
            times(ar, sqrt(ar, sum_squares(dr, da, ar)), sign)
        };
        (
            compose_axis(at, times(ar, n0, radius), times(ar, n1, radius), center, axis, ar),
            compose_normal(zero, n0, n1, axis),
            dist,
        )
    }
}

/// The point of a cylinder's flat end at `end` that is closest to `pos`.
pub open spec fn cap_point<F: Fn(Op, Scalar, Scalar, Scalar) -> Scalar>(
    ar: F,
    pos: Vec3,
    center: [Scalar; 2],
    radius: Scalar,
    axis: Axis,
    end: Scalar,
) -> Vec3 {
    let (axial, d0, d1) = decomposed(ar, pos, center, axis);
    let radial = root(ar, squares(ar, d0, d1));
    let cap_r = if radius.at_least(radial) {
        radial
    } else {
        radius
    };
    if radial.below(tiny()) {
        composed(ar, end, Scalar::zero(), Scalar::zero(), center, axis)
    } else {
        let inv = quotient(ar, Scalar::one(), radial);
        composed(
            ar,
            end,
            product(ar, product(ar, d0, inv), cap_r),
            product(ar, product(ar, d1, inv), cap_r),
            center,
            axis,
        )
    }
}

fn flat_end<F: Fn(Op, Scalar, Scalar, Scalar) -> Scalar>(
    pos: &Vec3,
    center: &[Scalar; 2],
    radius: Scalar,
    axis: Axis,
    end: Scalar,
    ar: &F,
) -> (r: Vec3)
    requires
        is_arithmetic(*ar),
    ensures
        r == cap_point(*ar, *pos, *center, radius, axis, end),
{
    let (_axial, d0, d1): (Scalar, Scalar, Scalar) = decompose_axis(pos, center, axis, ar);
    let radial: Scalar = sqrt(ar, sum_squares(d0, d1, ar));
    let cap_r: Scalar = if radius.ge(radial) {
        radial
    } else {
        radius
    };
    if radial.lt(tiny()) {
        compose_axis(end, Scalar::zero(), Scalar::zero(), center, axis, ar)
    } else {
        let inv: Scalar = over(ar, Scalar::one(), radial);
        compose_axis(
            end,
            times(ar, times(ar, d0, inv), cap_r),
            times(ar, times(ar, d1, inv), cap_r),
            center,
            axis,
            ar,
        )
    }
}

/// The closest point of a cylinder: inside, the nearest of the curved surface
/// and the two ends; outside, the nearest of the three candidates.
pub open spec fn closest_on_cylinder<F: Fn(Op, Scalar, Scalar, Scalar) -> Scalar>(
    ar: F,
    pos: Vec3,
    center: [Scalar; 2],
    radius: Scalar,
    axis: Axis,
    lo: Scalar,
    hi: Scalar,
) -> SurfaceResult {
    let zero = Scalar::zero();
    let (axial, d0, d1) = decomposed(ar, pos, center, axis);
    let radial = root(ar, squares(ar, d0, d1));
    let (curved_point, curved_normal, curved_dist) = curved_candidate(
        ar,
        pos,
        center,
        radius,
        axis,
        lo,
        hi,
    );
    let lo_point = cap_point(ar, pos, center, radius, axis, lo);
    let hi_point = cap_point(ar, pos, center, radius, axis, hi);
    let lo_normal = along_axis(Scalar::minus_one(), zero, zero, axis);
    let hi_normal = along_axis(Scalar::one(), zero, zero, axis);
    let d_lo = difference(ar, axial, lo);
    let d_hi = difference(ar, hi, axial);
    if between_ends(axial, lo, hi) && radius.at_least(radial) {
        let d_curved = difference(ar, radius, radial).absolute();
        if d_lo.at_least(d_curved) && d_hi.at_least(d_curved) {
            SurfaceResult {
                point: curved_point,
                normal: curved_normal,
                distance: difference(ar, radial, radius),
            }
        } else if d_hi.at_least(d_lo) {
            SurfaceResult { point: lo_point, normal: lo_normal, distance: d_lo.negated() }
        } else {
            SurfaceResult { point: hi_point, normal: hi_normal, distance: d_hi.negated() }
        }
    } else {
        let lo_dist = if axial.below(lo) {
            difference(ar, lo, axial)
        } else {
            norm_of(ar, minus_of(ar, pos, lo_point))
        };
        let hi_dist = if hi.below(axial) {
            difference(ar, axial, hi)
        } else {
            norm_of(ar, minus_of(ar, pos, hi_point))
        };
        let best = least_at(seq![curved_dist.absolute(), lo_dist, hi_dist], 3);
        if best == 0 {
            from_outside(ar, pos, curved_point, curved_normal)
        } else if best == 1 {
            from_outside(ar, pos, lo_point, lo_normal)
        } else {
            from_outside(ar, pos, hi_point, hi_normal)
        }
    }
}

fn closest_point_cylinder<F: Fn(Op, Scalar, Scalar, Scalar) -> Scalar>(
    pos: &Vec3,
    center: &[Scalar; 2],
    radius: Scalar,
    axis: Axis,
    lo: Scalar,
    hi: Scalar,
    ar: &F,
) -> (r: SurfaceResult)
    requires
        is_arithmetic(*ar),
        hi.at_least(lo),
    ensures
        r == closest_on_cylinder(*ar, *pos, *center, radius, axis, lo, hi),
{
    let zero: Scalar = Scalar::zero();
    let (axial, d0, d1): (Scalar, Scalar, Scalar) = decompose_axis(pos, center, axis, ar);
    let radial: Scalar = sqrt(ar, sum_squares(d0, d1, ar));
    let (curved_point, curved_normal, curved_dist): (Vec3, Vec3, Scalar) = curved_surface(
        pos,
        center,
        radius,
        axis,
        lo,
        hi,
        ar,
    );
    let lo_point: Vec3 = flat_end(pos, center, radius, axis, lo, ar);
    let hi_point: Vec3 = flat_end(pos, center, radius, axis, hi, ar);
    let lo_normal: Vec3 = compose_normal(Scalar::minus_one(), zero, zero, axis);
    let hi_normal: Vec3 = compose_normal(Scalar::one(), zero, zero, axis);
    let d_lo: Scalar = minus(ar, axial, lo);
    let d_hi: Scalar = minus(ar, hi, axial);
    if axial.ge(lo) && hi.ge(axial) && radius.ge(radial) {
        let d_curved: Scalar = minus(ar, radius, radial).abs();
        if d_lo.ge(d_curved) && d_hi.ge(d_curved) {
            SurfaceResult {
                point: curved_point,
                normal: curved_normal,
                distance: minus(ar, radial, radius),
            }
        } else if d_hi.ge(d_lo) {
            SurfaceResult { point: lo_point, normal: lo_normal, distance: d_lo.neg() }
        } else {
            SurfaceResult { point: hi_point, normal: hi_normal, distance: d_hi.neg() }
        }
    } else {
        let lo_dist: Scalar = if axial.lt(lo) {
            minus(ar, lo, axial)
        } else {
            norm(crate::vec3::sub(*pos, lo_point, ar), ar)
        };
        let hi_dist: Scalar = if hi.lt(axial) {
            minus(ar, axial, hi)
        } else {
            norm(crate::vec3::sub(*pos, hi_point, ar), ar)
        };
        let mut dists: Vec<Scalar> = Vec::new();
        dists.push(curved_dist.abs());
        dists.push(lo_dist);
        dists.push(hi_dist);
        assert(dists@ =~= seq![curved_dist.absolute(), lo_dist, hi_dist]);
        let best: usize = find_least(&dists);
        if best == 0 {
            outside_result(pos, curved_point, curved_normal, ar)
        } else if best == 1 {
            outside_result(pos, lo_point, lo_normal, ar)
        } else {
            outside_result(pos, hi_point, hi_normal, ar)
        }
    }
}

/// The radius of a cone at a coordinate along its axis, between its two ends.
pub open spec fn cone_radius_between<F: Fn(Op, Scalar, Scalar, Scalar) -> Scalar>(
    ar: F,
    a: Scalar,
    rad_lo: Scalar,
    rad_hi: Scalar,
    lo: Scalar,
    hi: Scalar,
) -> Scalar {
    let height = difference(ar, hi, lo);
    if height.absolute().below(tiny()) {
        product(ar, sum(ar, rad_lo, rad_hi), Scalar::half())
    } else {
        let t = quotient(ar, difference(ar, a, lo), height).clamped(Scalar::zero(), Scalar::one());
        sum(ar, rad_lo, product(ar, t, difference(ar, rad_hi, rad_lo)))
    }
}

/// The direction across the axis.
pub open spec fn radial_direction<F: Fn(Op, Scalar, Scalar, Scalar) -> Scalar>(
    ar: F,
    d0: Scalar,
    d1: Scalar,
) -> (Scalar, Scalar) {
    let radial = root(ar, squares(ar, d0, d1));
    if radial.below(tiny()) {
        (Scalar::one(), Scalar::zero())
    } else {
        (quotient(ar, d0, radial), quotient(ar, d1, radial))
    }
}

/// The candidate on the slanted surface of a cone: point, normal and distance.
/// In the plane of axis and radius the surface is a segment, onto which the
/// point is projected.
pub open spec fn slanted_candidate<F: Fn(Op, Scalar, Scalar, Scalar) -> Scalar>(
    ar: F,
    pos: Vec3,
    center: [Scalar; 2],
    axis: Axis,
    rad_lo: Scalar,
    rad_hi: Scalar,
    lo: Scalar,
    hi: Scalar,
) -> (Vec3, Vec3, Scalar) {
    let (axial, d0, d1) = decomposed(ar, pos, center, axis);
    let radial = root(ar, squares(ar, d0, d1));
    let (n0, n1) = radial_direction(ar, d0, d1);
    let seg_da = difference(ar, hi, lo);
    let seg_dr = difference(ar, rad_hi, rad_lo);
    let len_sq = squares(ar, seg_da, seg_dr);
    let t = if len_sq.below(tiny()) {
        Scalar::half()
    } else {
        quotient(
            ar,
            sum(
                ar,
                product(ar, difference(ar, axial, lo), seg_da),
                product(ar, difference(ar, radial, rad_lo), seg_dr),
            ),
            len_sq,
        ).clamped(Scalar::zero(), Scalar::one())
    };
    let proj_axial = sum(ar, lo, product(ar, t, seg_da));
    let proj_radial = sum(ar, rad_lo, product(ar, t, seg_dr));
    let norm_len = root(ar, squares(ar, seg_dr.negated(), seg_da));
    let (na, nr) = if tiny().below(norm_len) {
        (quotient(ar, seg_dr.negated(), norm_len), quotient(ar, seg_da, norm_len))
    } else {
        (Scalar::zero(), Scalar::one())
    };
    (
        composed(
            ar,
            proj_axial,
            product(ar, n0, proj_radial),
            product(ar, n1, proj_radial),
            center,
            axis,
        ),
        along_axis(na, product(ar, nr, n0), product(ar, nr, n1), axis),
        root(
            ar,
            squares(
                ar,
                difference(ar, axial, proj_axial),
                difference(ar, radial, proj_radial),
            ),
        ),
    )
}

fn direction_across<F: Fn(Op, Scalar, Scalar, Scalar) -> Scalar>(
    d0: Scalar,
    d1: Scalar,
    radial: Scalar,
    ar: &F,
) -> (r: (Scalar, Scalar))
    requires
        is_arithmetic(*ar),
        radial == root(*ar, squares(*ar, d0, d1)),
    ensures
        r == radial_direction(*ar, d0, d1),
{
    if radial.lt(tiny()) {
        (Scalar::one(), Scalar::zero())
    } else {
        (over(ar, d0, radial), over(ar, d1, radial))
    }
}

proof fn lemma_unit_interval()
    ensures
        Scalar::one().at_least(Scalar::zero()),
{
    let (one, zero): (Scalar, Scalar) = (Scalar::one(), Scalar::zero());
    crate::scalar::lemma_units_ordered(zero, one);
    assert(one.magnitude() == 0x3FF0_0000_0000_0000);
    assert(zero.magnitude() == 0);
}

fn slanted_surface<F: Fn(Op, Scalar, Scalar, Scalar) -> Scalar>(
    pos: &Vec3,
    center: &[Scalar; 2],
    axis: Axis,
    rad_lo: Scalar,
    rad_hi: Scalar,
    lo: Scalar,
    hi: Scalar,
    ar: &F,
) -> (r: (Vec3, Vec3, Scalar))
    requires
        is_arithmetic(*ar),
    ensures
        r == slanted_candidate(*ar, *pos, *center, axis, rad_lo, rad_hi, lo, hi),
{
    let (axial, d0, d1): (Scalar, Scalar, Scalar) = decompose_axis(pos, center, axis, ar);
    let radial: Scalar = sqrt(ar, sum_squares(d0, d1, ar));
    let (n0, n1): (Scalar, Scalar) = direction_across(d0, d1, radial, ar);
    let seg_da: Scalar = minus(ar, hi, lo);
    let seg_dr: Scalar = minus(ar, rad_hi, rad_lo);
    let len_sq: Scalar = sum_squares(seg_da, seg_dr, ar);
    let t: Scalar = if len_sq.lt(tiny()) {
        Scalar::half()
    } else {
        proof {
            lemma_unit_interval();
        }
        over(
            ar,
            plus(
                ar,
                times(ar, minus(ar, axial, lo), seg_da),
                times(ar, minus(ar, radial, rad_lo), seg_dr),
            ),
            len_sq,
        ).clamp(Scalar::zero(), Scalar::one())
    };
    let proj_axial: Scalar = plus(ar, lo, times(ar, t, seg_da));
    let proj_radial: Scalar = plus(ar, rad_lo, times(ar, t, seg_dr));
    let norm_len: Scalar = sqrt(ar, sum_squares(seg_dr.neg(), seg_da, ar));
    let (na, nr): (Scalar, Scalar) = if tiny().lt(norm_len) {
        (over(ar, seg_dr.neg(), norm_len), over(ar, seg_da, norm_len))
    } else {
        (Scalar::zero(), Scalar::one())
    };
    (
        compose_axis(
            proj_axial,
            times(ar, n0, proj_radial),
            times(ar, n1, proj_radial),
            center,
            axis,
            ar,
        ),
        compose_normal(na, times(ar, nr, n0), times(ar, nr, n1), axis),
        sqrt(
            ar,
            sum_squares(minus(ar, axial, proj_axial), minus(ar, radial, proj_radial), ar),
        ),
    )
}

/// The point of a cone's flat end at `end` with radius `rad` that is closest to `pos`.
pub open spec fn cone_cap<F: Fn(Op, Scalar, Scalar, Scalar) -> Scalar>(
    ar: F,
    pos: Vec3,
    center: [Scalar; 2],
    axis: Axis,
    rad: Scalar,
    end: Scalar,
) -> Vec3 {
    let (axial, d0, d1) = decomposed(ar, pos, center, axis);
    let radial = root(ar, squares(ar, d0, d1));
    let (n0, n1) = radial_direction(ar, d0, d1);
    let cap_r = rad.smaller(radial.greater(Scalar::zero())).smaller(rad);
    composed(ar, end, product(ar, n0, cap_r), product(ar, n1, cap_r), center, axis)
}

fn cone_end<F: Fn(Op, Scalar, Scalar, Scalar) -> Scalar>(
    pos: &Vec3,
    center: &[Scalar; 2],
    axis: Axis,
    rad: Scalar,
    end: Scalar,
    ar: &F,
) -> (r: Vec3)
    requires
        is_arithmetic(*ar),
    ensures
        r == cone_cap(*ar, *pos, *center, axis, rad, end),
{
    let (_axial, d0, d1): (Scalar, Scalar, Scalar) = decompose_axis(pos, center, axis, ar);
    let radial: Scalar = sqrt(ar, sum_squares(d0, d1, ar));
    let (n0, n1): (Scalar, Scalar) = direction_across(d0, d1, radial, ar);
    let cap_r: Scalar = rad.min(radial.max(Scalar::zero())).min(rad);
    compose_axis(end, times(ar, n0, cap_r), times(ar, n1, cap_r), center, axis, ar)
}

/// The closest point of a cone: inside, the nearest of the slanted surface and
/// the two ends; outside, the nearest of the three candidates.
pub open spec fn closest_on_cone<F: Fn(Op, Scalar, Scalar, Scalar) -> Scalar>(
    ar: F,
    pos: Vec3,
    center: [Scalar; 2],
    axis: Axis,
    rad_lo: Scalar,
    rad_hi: Scalar,
    lo: Scalar,
    hi: Scalar,
) -> SurfaceResult {
    let zero = Scalar::zero();
    let (axial, d0, d1) = decomposed(ar, pos, center, axis);
    let radial = root(ar, squares(ar, d0, d1));
    let (slant_point, slant_normal, slant_dist) = slanted_candidate(
        ar,
        pos,
        center,
        axis,
        rad_lo,
        rad_hi,
        lo,
        hi,
    );
    let lo_point = cone_cap(ar, pos, center, axis, rad_lo, lo);
    let hi_point = cone_cap(ar, pos, center, axis, rad_hi, hi);
    let lo_normal = along_axis(Scalar::minus_one(), zero, zero, axis);
    let hi_normal = along_axis(Scalar::one(), zero, zero, axis);
    if between_ends(axial, lo, hi) && cone_radius_between(
        ar,
        axial,
        rad_lo,
        rad_hi,
        lo,
        hi,
    ).at_least(radial) {
        let d_lo = difference(ar, axial, lo);
        let d_hi = difference(ar, hi, axial);
        if d_lo.at_least(slant_dist) && d_hi.at_least(slant_dist) {
            SurfaceResult {
                point: slant_point,
                normal: slant_normal,
                distance: slant_dist.negated(),
            }
        } else if d_hi.at_least(d_lo) {
            SurfaceResult { point: lo_point, normal: lo_normal, distance: d_lo.negated() }
        } else {
            SurfaceResult { point: hi_point, normal: hi_normal, distance: d_hi.negated() }
        }
    } else {
        let lo_dist = norm_of(ar, minus_of(ar, pos, lo_point));
        let hi_dist = norm_of(ar, minus_of(ar, pos, hi_point));
        let best = least_at(seq![slant_dist, lo_dist, hi_dist], 3);
        if best == 0 {
            from_outside(ar, pos, slant_point, slant_normal)
        } else if best == 1 {
            from_outside(ar, pos, lo_point, lo_normal)
        } else {
            from_outside(ar, pos, hi_point, hi_normal)
        }
    }
}

fn closest_point_cone<F: Fn(Op, Scalar, Scalar, Scalar) -> Scalar>(
    pos: &Vec3,
    center: &[Scalar; 2],
    axis: Axis,
    rad_lo: Scalar,
    rad_hi: Scalar,
    lo: Scalar,
    hi: Scalar,
    ar: &F,
) -> (r: SurfaceResult)
    requires
        is_arithmetic(*ar),
    ensures
        r == closest_on_cone(*ar, *pos, *center, axis, rad_lo, rad_hi, lo, hi),
{
    let zero: Scalar = Scalar::zero();
    let (axial, d0, d1): (Scalar, Scalar, Scalar) = decompose_axis(pos, center, axis, ar);
    let radial: Scalar = sqrt(ar, sum_squares(d0, d1, ar));
    let height: Scalar = minus(ar, hi, lo);
    let r_at_pos: Scalar = if height.abs().lt(tiny()) {
        times(ar, plus(ar, rad_lo, rad_hi), Scalar::half())
    } else {
        proof {
            lemma_unit_interval();
        }
        let t: Scalar = over(ar, minus(ar, axial, lo), height).clamp(
            Scalar::zero(),
            Scalar::one(),
        );
        plus(ar, rad_lo, times(ar, t, minus(ar, rad_hi, rad_lo)))
    };
    let (slant_point, slant_normal, slant_dist): (Vec3, Vec3, Scalar) = slanted_surface(
        pos,
        center,
        axis,
        rad_lo,
        rad_hi,
        lo,
        hi,
        ar,
    );
    let lo_point: Vec3 = cone_end(pos, center, axis, rad_lo, lo, ar);
    let hi_point: Vec3 = cone_end(pos, center, axis, rad_hi, hi, ar);
    let lo_normal: Vec3 = compose_normal(Scalar::minus_one(), zero, zero, axis);
    let hi_normal: Vec3 = compose_normal(Scalar::one(), zero, zero, axis);
    if axial.ge(lo) && hi.ge(axial) && r_at_pos.ge(radial) {
        let d_lo: Scalar = minus(ar, axial, lo);
        let d_hi: Scalar = minus(ar, hi, axial);
        if d_lo.ge(slant_dist) && d_hi.ge(slant_dist) {
            SurfaceResult { point: slant_point, normal: slant_normal, distance: slant_dist.neg() }
        } else if d_hi.ge(d_lo) {
            SurfaceResult { point: lo_point, normal: lo_normal, distance: d_lo.neg() }
        } else {
            SurfaceResult { point: hi_point, normal: hi_normal, distance: d_hi.neg() }
        }
    } else {
        let lo_dist: Scalar = norm(crate::vec3::sub(*pos, lo_point, ar), ar);
        let hi_dist: Scalar = norm(crate::vec3::sub(*pos, hi_point, ar), ar);
        let mut dists: Vec<Scalar> = Vec::new();
        dists.push(slant_dist);
        dists.push(lo_dist);
        dists.push(hi_dist);
        assert(dists@ =~= seq![slant_dist, lo_dist, hi_dist]);
        let best: usize = find_least(&dists);
        if best == 0 {
            outside_result(pos, slant_point, slant_normal, ar)
        } else if best == 1 {
            outside_result(pos, lo_point, lo_normal, ar)
        } else {
            outside_result(pos, hi_point, hi_normal, ar)
        }
    }
}

/// The region has a surface: bounds are in order, and a union or an
/// intersection has at least one region.
pub open spec fn has_surface(region: Region) -> bool
    decreases region,
{
    match region {
        Region::Block { min, max } => max[0].at_least(min[0]) && max[1].at_least(min[1])
            && max[2].at_least(min[2]),
        Region::Cylinder { lo, hi, .. } => hi.at_least(lo),
        Region::Union { regions } => regions@.len() > 0 && all_have_surface(
            regions,
            regions@.len(),
        ),
        Region::Intersect { regions } => regions@.len() > 0 && all_have_surface(
            regions,
            regions@.len(),
        ),
        _ => true,
    }
}

pub open spec fn all_have_surface(regions: Vec<Region>, k: nat) -> bool
    decreases regions, k,
{
    k == 0 || k > regions@.len() || (all_have_surface(regions, (k - 1) as nat) && has_surface(
        regions@[k - 1],
    ))
}

proof fn lemma_has_surface(regions: Vec<Region>, k: nat, i: int)
    requires
        all_have_surface(regions, k),
        0 <= i < k <= regions@.len(),
    ensures
        has_surface(regions@[i]),
    decreases k,
{
    if i < k - 1 {
        lemma_has_surface(regions, (k - 1) as nat, i);
    }
}

/// The closest point of the region's surface.
pub open spec fn closest<F: Fn(Op, Scalar, Scalar, Scalar) -> Scalar>(
    ar: F,
    region: Region,
    pos: Vec3,
) -> SurfaceResult
    decreases region,
{
    match region {
        Region::Block { min, max } => closest_on_block(ar, pos, min, max),
        Region::Sphere { center, radius } => closest_on_sphere(ar, pos, center, radius),
        Region::Cylinder { center, radius, axis, lo, hi } => closest_on_cylinder(
            ar,
            pos,
            center,
            radius,
            axis,
            lo,
            hi,
        ),
        Region::Cone { center, axis, rad_lo, rad_hi, lo, hi } => closest_on_cone(
            ar,
            pos,
            center,
            axis,
            rad_lo,
            rad_hi,
            lo,
            hi,
        ),
        Region::Plane { point, normal } => closest_on_plane(ar, pos, point, normal),
        Region::Union { regions } => {
            let parts = closest_parts(ar, regions, pos, regions@.len());
            parts[first_by(Rule::Least, parts, parts.len() as int)].result
        },
        Region::Intersect { regions } => {
            let parts = closest_parts(ar, regions, pos, regions@.len());
            let far = first_by(Rule::Greatest, parts, parts.len() as int);
            if inside_others(ar, regions, parts[far].result.point, far, regions@.len()) {
                parts[far].result
            } else {
                parts[first_by(Rule::Nearest, parts, parts.len() as int)].result
            }
        },
    }
}

/// The closest point of a part of a region, and how far the position lies outside
/// the part, a negative number inside.
#[derive(Clone, Copy, Debug)]
pub struct PartSurface {
    pub result: SurfaceResult,
    pub depth: Scalar,
}

/// The distance, negative where the region contains the position.
pub open spec fn depth_of<F: Fn(Op, Scalar, Scalar, Scalar) -> Scalar>(
    ar: F,
    region: Region,
    pos: Vec3,
    distance: Scalar,
) -> Scalar {
    if inside(ar, region, pos) {
        distance.absolute().negated()
    } else {
        distance.absolute()
    }
}

/// By how far the position lies outside them one of several parts is chosen.
#[derive(Clone, Copy, PartialEq, Eq, Structural, Debug)]
pub enum Rule {
    /// The part that the position lies deepest in or is nearest to.
    Least,
    /// The part that the position lies farthest outside of or least deep in.
    Greatest,
    /// The nearest surface, of the parts that the position lies outside of if there
    /// are any.
    Nearest,
}

/// The first part is preferred to the second.
pub open spec fn decides(rule: Rule, a: PartSurface, b: PartSurface) -> bool {
    let (out_a, out_b) = (a.depth.at_least(Scalar::zero()), b.depth.at_least(Scalar::zero()));
    match rule {
        Rule::Least => a.depth.below(b.depth),
        Rule::Greatest => b.depth.below(a.depth),
        Rule::Nearest => out_a && !out_b || out_a == out_b && a.depth.absolute().below(
            b.depth.absolute(),
        ),
    }
}

/// The place of the preferred one of the first `k` parts, the earlier of two that
/// are equally good.
pub open spec fn first_by(rule: Rule, results: Seq<PartSurface>, k: int) -> int
    decreases k,
{
    if k <= 1 {
        0
    } else {
        let best = first_by(rule, results, k - 1);
        if decides(rule, results[k - 1], results[best]) {
            k - 1
        } else {
            best
        }
    }
}

/// The closest points of the surfaces of the first `k` regions.
pub open spec fn closest_parts<F: Fn(Op, Scalar, Scalar, Scalar) -> Scalar>(
    ar: F,
    regions: Vec<Region>,
    pos: Vec3,
    k: nat,
) -> Seq<PartSurface>
    decreases regions, k,
{
    if k == 0 || k > regions@.len() {
        Seq::empty()
    } else {
        let result = closest(ar, regions@[k - 1], pos);
        closest_parts(ar, regions, pos, (k - 1) as nat).push(
            PartSurface { result, depth: depth_of(ar, regions@[k - 1], pos, result.distance) },
        )
    }
}

/// All of the first `k` regions but one contain the point.
pub open spec fn inside_others<F: Fn(Op, Scalar, Scalar, Scalar) -> Scalar>(
    ar: F,
    regions: Vec<Region>,
    pos: Vec3,
    but: int,
    k: nat,
) -> bool
    decreases k,
{
    k == 0 || k > regions@.len() || (inside_others(ar, regions, pos, but, (k - 1) as nat) && (k - 1
        == but || inside(ar, regions@[k - 1], pos)))
}

pub proof fn lemma_parts<F: Fn(Op, Scalar, Scalar, Scalar) -> Scalar>(
    ar: F,
    regions: Vec<Region>,
    pos: Vec3,
    k: nat,
)
    requires
        k <= regions@.len(),
    ensures
        closest_parts(ar, regions, pos, k).len() == k,
        forall|i: int|
            0 <= i < k ==> {
                let part = #[trigger] closest_parts(ar, regions, pos, k)[i];
                let result = closest(ar, regions@[i], pos);
                &&& part.result == result
                &&& part.depth == depth_of(ar, regions@[i], pos, result.distance)
                &&& part.depth.nan() == result.distance.nan()
                &&& part.depth.absolute() == result.distance.absolute()
            },
    decreases k,
{
    if k > 0 {
        lemma_parts(ar, regions, pos, (k - 1) as nat);
        lemma_depth(ar, regions@[k - 1], pos, closest(ar, regions@[k - 1], pos).distance);
    }
}

proof fn lemma_depth<F: Fn(Op, Scalar, Scalar, Scalar) -> Scalar>(
    ar: F,
    region: Region,
    pos: Vec3,
    distance: Scalar,
)
    ensures
        depth_of(ar, region, pos, distance).nan() == distance.nan(),
        depth_of(ar, region, pos, distance).absolute() == distance.absolute(),
        inside(ar, region, pos) ==> depth_of(ar, region, pos, distance).value() == -(
        distance.absolute().value()),
{
    let a: Scalar = distance.absolute();
    assert(a.magnitude() == distance.magnitude());
    assert(a.negated().magnitude() == distance.magnitude());
    assert(a.negated().units() == a.units());
}

/// The chosen part is one of them, and no other is preferred to it.
pub proof fn first_is_preferred(rule: Rule, results: Seq<PartSurface>, k: int)
    requires
        1 <= k <= results.len(),
        forall|i: int| 0 <= i < k ==> !(#[trigger] results[i]).depth.nan(),
    ensures
        0 <= first_by(rule, results, k) < k,
        forall|i: int|
            0 <= i < k ==> !decides(rule, #[trigger] results[i], results[first_by(
                rule,
                results,
                k,
            )]),
    decreases k,
{
    if k > 1 {
        first_is_preferred(rule, results, k - 1);
        let best: PartSurface = results[first_by(rule, results, k - 1)];
        let next: PartSurface = results[k - 1];
        lemma_absolute_keeps_nan(best.depth);
        lemma_absolute_keeps_nan(next.depth);
        assert forall|i: int| 0 <= i < k implies !decides(
            rule,
            #[trigger] results[i],
            results[first_by(rule, results, k)],
        ) by {
            lemma_absolute_keeps_nan(results[i].depth);
            if i < k - 1 {
                assert(!decides(rule, results[i], best));
            }
        }
    } else {
        lemma_absolute_keeps_nan(results[0].depth);
    }
}

proof fn lemma_absolute_keeps_nan(x: Scalar)
    ensures
        x.absolute().nan() == x.nan(),
{
    assert(x.absolute().magnitude() == x.magnitude());
}

fn choose_first(rule: Rule, results: &Vec<PartSurface>) -> (r: usize)
    requires
        results@.len() > 0,
    ensures
        r == first_by(rule, results@, results@.len() as int),
        r < results@.len(),
{
    let mut best: usize = 0;
    let mut k: usize = 1;
    while k < results.len()
        invariant
            1 <= k <= results@.len(),
            best < k,
            best == first_by(rule, results@, k as int),
        decreases results.len() - k,
    {
        let (a, b): (Scalar, Scalar) = (results[k].depth, results[best].depth);
        let better: bool = match rule {
            Rule::Least => a.lt(b),
            Rule::Greatest => b.lt(a),
            Rule::Nearest => {
                let out_a: bool = a.ge(Scalar::zero());
                let out_b: bool = b.ge(Scalar::zero());
                out_a && !out_b || out_a == out_b && a.abs().lt(b.abs())
            },
        };
        if better {
            best = k;
        }
        k = k + 1;
    }
    best
}

/// The sign of the distance tells on which side of the surface the point lies.
pub open spec fn sign_agrees<F: Fn(Op, Scalar, Scalar, Scalar) -> Scalar>(
    ar: F,
    region: Region,
    pos: Vec3,
) -> bool {
    let d = closest(ar, region, pos).distance;
    &&& inside(ar, region, pos) ==> Scalar::zero().at_least(d)
    &&& !inside(ar, region, pos) ==> d.at_least(Scalar::zero())
}

/// Where the sign of the distance agrees with containment for every part of a
/// union, it agrees for the union.
pub proof fn union_sign_agrees<F: Fn(Op, Scalar, Scalar, Scalar) -> Scalar>(
    ar: F,
    regions: Vec<Region>,
    pos: Vec3,
)
    requires
        regions@.len() > 0,
        forall|i: int| 0 <= i < regions@.len() ==> sign_agrees(ar, #[trigger] regions@[i], pos),
    ensures
        sign_agrees(ar, Region::Union { regions }, pos),
{
    let n: nat = regions@.len();
    let parts: Seq<PartSurface> = closest_parts(ar, regions, pos, n);
    lemma_parts(ar, regions, pos, n);
    assert forall|i: int| 0 <= i < n implies !(#[trigger] parts[i]).depth.nan() by {
        assert(sign_agrees(ar, regions@[i], pos));
    }
    first_is_preferred(Rule::Least, parts, n as int);
    union_is_or(ar, regions, pos, n);
    let j: int = first_by(Rule::Least, parts, n as int);
    assert(sign_agrees(ar, regions@[j], pos));
    lemma_depth(ar, regions@[j], pos, parts[j].result.distance);
    if inside_any(ar, regions, pos, n) {
        let i: int = choose|i: int| 0 <= i < n && inside(ar, #[trigger] regions@[i], pos);
        assert(sign_agrees(ar, regions@[i], pos));
        lemma_depth(ar, regions@[i], pos, parts[i].result.distance);
        assert(!decides(Rule::Least, parts[i], parts[j]));
    }
}

/// Where the sign of the distance agrees with containment for every part of an
/// intersection, it agrees for the intersection.
pub proof fn intersection_sign_agrees<F: Fn(Op, Scalar, Scalar, Scalar) -> Scalar>(
    ar: F,
    regions: Vec<Region>,
    pos: Vec3,
)
    requires
        regions@.len() > 0,
        forall|i: int| 0 <= i < regions@.len() ==> sign_agrees(ar, #[trigger] regions@[i], pos),
    ensures
        sign_agrees(ar, Region::Intersect { regions }, pos),
{
    let n: nat = regions@.len();
    let parts: Seq<PartSurface> = closest_parts(ar, regions, pos, n);
    lemma_parts(ar, regions, pos, n);
    assert forall|i: int| 0 <= i < n implies !(#[trigger] parts[i]).depth.nan() by {
        assert(sign_agrees(ar, regions@[i], pos));
    }
    first_is_preferred(Rule::Greatest, parts, n as int);
    first_is_preferred(Rule::Nearest, parts, n as int);
    intersection_is_and(ar, regions, pos, n);
    let far: int = first_by(Rule::Greatest, parts, n as int);
    let near: int = first_by(Rule::Nearest, parts, n as int);
    assert(sign_agrees(ar, regions@[far], pos));
    assert(sign_agrees(ar, regions@[near], pos));
    lemma_depth(ar, regions@[far], pos, parts[far].result.distance);
    lemma_depth(ar, regions@[near], pos, parts[near].result.distance);
    if !inside_all(ar, regions, pos, n) {
        let i: int = choose|i: int| 0 <= i < n && !inside(ar, #[trigger] regions@[i], pos);
        assert(sign_agrees(ar, regions@[i], pos));
        lemma_depth(ar, regions@[i], pos, parts[i].result.distance);
        assert(!decides(Rule::Greatest, parts[i], parts[far]));
        assert(!decides(Rule::Nearest, parts[i], parts[near]));
    }
}

/// A position that all parts contain has as the closest point of their intersection
/// that of the nearest surface.
pub proof fn intersection_takes_the_nearest_inside<F: Fn(Op, Scalar, Scalar, Scalar) -> Scalar>(
    ar: F,
    regions: Vec<Region>,
    pos: Vec3,
    i: int,
)
    requires
        0 <= i < regions@.len(),
        forall|k: int|
            0 <= k < regions@.len() ==> !closest(ar, #[trigger] regions@[k], pos).distance.nan(),
        forall|k: int| 0 <= k < regions@.len() ==> inside(ar, #[trigger] regions@[k], pos),
    ensures
        !closest(ar, regions@[i], pos).distance.absolute().below(
            closest(ar, Region::Intersect { regions }, pos).distance.absolute(),
        ),
{
    let n: nat = regions@.len();
    let parts: Seq<PartSurface> = closest_parts(ar, regions, pos, n);
    lemma_parts(ar, regions, pos, n);
    assert forall|k: int| 0 <= k < n implies !(#[trigger] parts[k]).depth.nan() by {
        assert(parts[k].result == closest(ar, regions@[k], pos));
    }
    first_is_preferred(Rule::Greatest, parts, n as int);
    first_is_preferred(Rule::Nearest, parts, n as int);
    let far: int = first_by(Rule::Greatest, parts, n as int);
    let near: int = first_by(Rule::Nearest, parts, n as int);
    assert(parts[near].result == closest(ar, regions@[near], pos));
    assert(parts[far].result == closest(ar, regions@[far], pos));
    assert(parts[i].result == closest(ar, regions@[i], pos));
    lemma_depth(ar, regions@[i], pos, parts[i].result.distance);
    lemma_depth(ar, regions@[far], pos, parts[far].result.distance);
    lemma_depth(ar, regions@[near], pos, parts[near].result.distance);
    assert(!decides(Rule::Nearest, parts[i], parts[near]));
    assert(!decides(Rule::Greatest, parts[i], parts[far]));
}

/// A position that no part contains has as the closest point of their union that of
/// the nearest surface.
pub proof fn union_takes_the_nearest_outside<F: Fn(Op, Scalar, Scalar, Scalar) -> Scalar>(
    ar: F,
    regions: Vec<Region>,
    pos: Vec3,
    i: int,
)
    requires
        0 <= i < regions@.len(),
        forall|k: int|
            0 <= k < regions@.len() ==> !closest(ar, #[trigger] regions@[k], pos).distance.nan(),
        forall|k: int| 0 <= k < regions@.len() ==> !inside(ar, #[trigger] regions@[k], pos),
    ensures
        !closest(ar, regions@[i], pos).distance.absolute().below(
            closest(ar, Region::Union { regions }, pos).distance.absolute(),
        ),
{
    let n: nat = regions@.len();
    let parts: Seq<PartSurface> = closest_parts(ar, regions, pos, n);
    lemma_parts(ar, regions, pos, n);
    assert forall|k: int| 0 <= k < n implies !(#[trigger] parts[k]).depth.nan() by {
        assert(parts[k].result == closest(ar, regions@[k], pos));
    }
    first_is_preferred(Rule::Least, parts, n as int);
    let near: int = first_by(Rule::Least, parts, n as int);
    assert(parts[near].result == closest(ar, regions@[near], pos));
    assert(parts[i].result == closest(ar, regions@[i], pos));
    assert(!decides(Rule::Least, parts[i], parts[near]));
}

/// The point that is returned for a union does not lie in another part, where no
/// point of that part is nearer than the part's distance says and the part is
/// farther away than the nearest one.
pub proof fn union_point_is_exposed<F: Fn(Op, Scalar, Scalar, Scalar) -> Scalar>(
    ar: F,
    regions: Vec<Region>,
    pos: Vec3,
    i: int,
)
    requires
        0 <= i < regions@.len(),
        ({
            let best = closest(ar, Region::Union { regions }, pos);
            let other = closest(ar, regions@[i], pos);
            &&& best.distance.below(other.distance)
            &&& inside(ar, regions@[i], best.point) ==> best.distance.at_least(other.distance)
        }),
    ensures
        !inside(ar, regions@[i], closest(ar, Region::Union { regions }, pos).point),
{
}

impl Region {
    /// The closest point of the surface, negative inside.
    ///
    /// Of a union it is that of the part that the position is nearest to or, inside,
    /// lies deepest in. Of an intersection it is that of the nearest surface, of the
    /// parts that the position lies outside of if there are any. The exception is the
    /// part that the position lies farthest outside of: where its point lies in all
    /// other parts, that point is the closest one. Where it does not, and in the
    /// overlap of two parts of a union, no part's point need lie on the surface of the
    /// region. The surface is then no closer than the distance says.
    pub fn closest_point_on_surface<F: Fn(Op, Scalar, Scalar, Scalar) -> Scalar>(
        &self,
        pos: &Vec3,
        ar: &F,
    ) -> (r: SurfaceResult)
        requires
            is_arithmetic(*ar),
            has_surface(*self),
        ensures
            r == closest(*ar, *self, *pos),
        decreases self,
    {
        match self {
            Region::Block { min, max } => closest_point_block(pos, min, max, ar),
            Region::Sphere { center, radius } => closest_point_sphere(pos, center, *radius, ar),
            Region::Cylinder { center, radius, axis, lo, hi } => closest_point_cylinder(
                pos,
                center,
                *radius,
                *axis,
                *lo,
                *hi,
                ar,
            ),
            Region::Cone { center, axis, rad_lo, rad_hi, lo, hi } => closest_point_cone(
                pos,
                center,
                *axis,
                *rad_lo,
                *rad_hi,
                *lo,
                *hi,
                ar,
            ),
            Region::Plane { point, normal } => closest_point_plane(pos, point, normal, ar),
            Region::Union { regions } => {
                let mut parts: Vec<PartSurface> = Vec::new();
                let mut k: usize = 0;
                while k < regions.len()
                    invariant
                        is_arithmetic(*ar),
                        k <= regions@.len(),
                        all_have_surface(*regions, regions@.len()),
                        parts@.len() == k,
                        parts@ == closest_parts(*ar, *regions, *pos, k as nat),
                        decreases_to!(self => regions),
                    decreases regions.len() - k,
                {
                    proof {
                        lemma_has_surface(*regions, regions@.len(), k as int);
                    }
                    let result: SurfaceResult = regions[k].closest_point_on_surface(pos, ar);
                    let size: Scalar = result.distance.abs();
                    let depth: Scalar = if regions[k].contains(pos, ar) {
                        size.neg()
                    } else {
                        size
                    };
                    parts.push(PartSurface { result, depth });
                    k = k + 1;
                }
                parts[choose_first(Rule::Least, &parts)].result
            },
            Region::Intersect { regions } => {
                let mut parts: Vec<PartSurface> = Vec::new();
                let mut k: usize = 0;
                while k < regions.len()
                    invariant
                        is_arithmetic(*ar),
                        k <= regions@.len(),
                        all_have_surface(*regions, regions@.len()),
                        parts@.len() == k,
                        parts@ == closest_parts(*ar, *regions, *pos, k as nat),
                        decreases_to!(self => regions),
                    decreases regions.len() - k,
                {
                    proof {
                        lemma_has_surface(*regions, regions@.len(), k as int);
                    }
                    let result: SurfaceResult = regions[k].closest_point_on_surface(pos, ar);
                    let size: Scalar = result.distance.abs();
                    let depth: Scalar = if regions[k].contains(pos, ar) {
                        size.neg()
                    } else {
                        size
                    };
                    parts.push(PartSurface { result, depth });
                    k = k + 1;
                }
                let far: usize = choose_first(Rule::Greatest, &parts);
                if others_contain(regions, &parts[far].result.point, far, ar) {
                    parts[far].result
                } else {
                    parts[choose_first(Rule::Nearest, &parts)].result
                }
            },
        }
    }
}

/// Whether all regions but one contain the point.
fn others_contain<F: Fn(Op, Scalar, Scalar, Scalar) -> Scalar>(
    regions: &Vec<Region>,
    pos: &Vec3,
    but: usize,
    ar: &F,
) -> (r: bool)
    requires
        is_arithmetic(*ar),
    ensures
        r == inside_others(*ar, *regions, *pos, but as int, regions@.len()),
{
    let mut k: usize = 0;
    let mut all: bool = true;
    while k < regions.len()
        invariant
            is_arithmetic(*ar),
            k <= regions@.len(),
            all == inside_others(*ar, *regions, *pos, but as int, k as nat),
        decreases regions.len() - k,
    {
        if all && k != but && !regions[k].contains(pos, ar) {
            all = false;
        }
        k = k + 1;
    }
    all
}

} // verus!

//! What the closest point of a surface is, where no operation rounds.

use crate::drawn::{exact_norm, lemma_natural_square};
use crate::exact::{
    exact_difference, exact_product, exact_quotient, exact_root, exact_sum, lemma_constants,
    lemma_divided, lemma_mul_add, lemma_mul_order, lemma_negated, lemma_order, num,
};
use crate::region::{
    closest_on_block, closest_on_sphere, face_distances, from_outside, inside, least_at,
    least_is_least, tiny, Region, SurfaceResult,
};
use crate::scalar::{product, quotient, Op, Scalar, Vec3};
use crate::vec3::{dot_of, minus_of, norm_of, scaled};
use vstd::prelude::*;

verus! {

/// A point of space.
pub struct Point {
    pub x: real,
    pub y: real,
    pub z: real,
}

/// The point that three scalars stand for.
pub open spec fn point_of(v: Vec3) -> Point {
    Point { x: num(v[0]), y: num(v[1]), z: num(v[2]) }
}

/// The square of the distance of two points.
pub open spec fn apart(a: Point, b: Point) -> real {
    let (x, y, z) = (a.x - b.x, a.y - b.y, a.z - b.z);
    x * x + y * y + z * z
}

/// The square of the length.
pub open spec fn length_squared(a: Point) -> real {
    a.x * a.x + a.y * a.y + a.z * a.z
}

/// The scalar product.
pub open spec fn dot(a: Point, b: Point) -> real {
    a.x * b.x + a.y * b.y + a.z * b.z
}

/// `(a - b)` squared.
pub proof fn lemma_square_of_difference(a: real, b: real)
    ensures
        (a - b) * (a - b) == a * a - 2real * (a * b) + b * b,
        (b - a) * (b - a) == (a - b) * (a - b),
{
    lemma_mul_add(a - b, a, -b);
    lemma_mul_add(a, a, -b);
    lemma_mul_add(-b, a, -b);
    assert((a - b) * (a - b) == a * a - 2real * (a * b) + b * b) by (nonlinear_arith);
    assert((b - a) * (b - a) == (a - b) * (a - b)) by (nonlinear_arith);
}

/// The square of `t * n - q`, with the square of `t` and the product taken out.
pub proof fn lemma_square_of_multiple(t: real, n: real, q: real)
    ensures
        (t * n - q) * (t * n - q) == (t * t) * (n * n) - 2real * (t * (n * q)) + q * q,
{
    lemma_square_of_difference(t * n, q);
    lemma_mul_order(t, n, q);
    lemma_mul_order(t * n, t, n);
    lemma_mul_order(t, n, t);
    lemma_mul_order(n, t, t);
    lemma_mul_order(t, t, n);
    lemma_mul_order(t * t, n, n);
    assert((t * n) * (t * n) == ((t * n) * t) * n);
    assert((t * n) * t == (t * t) * n);
}

/// The square of the distance of `t * n` and `q`.
pub proof fn lemma_apart_along(t: real, n: Point, q: Point)
    ensures
        apart(Point { x: t * n.x, y: t * n.y, z: t * n.z }, q) == (t * t) * length_squared(n)
            - 2real * (t * dot(n, q)) + length_squared(q),
{
    lemma_square_of_multiple(t, n.x, q.x);
    lemma_square_of_multiple(t, n.y, q.y);
    lemma_square_of_multiple(t, n.z, q.z);
    lemma_mul_add(t * t, n.x * n.x, n.y * n.y);
    lemma_mul_add(t * t, n.x * n.x + n.y * n.y, n.z * n.z);
    lemma_mul_add(t, n.x * q.x, n.y * q.y);
    lemma_mul_add(t, n.x * q.x + n.y * q.y, n.z * q.z);
}

/// A factor that is positive can be dropped.
pub proof fn lemma_drop_factor(r: real, a: real, b: real)
    requires
        r > 0real,
        r * a <= r * b,
    ensures
        a <= b,
{
    if a > b {
        assert(r * a > r * b) by (nonlinear_arith)
            requires
                r > 0real,
                a > b,
        ;
    }
}

/// A larger factor gives a larger product.
pub proof fn lemma_grow_factor(t: real, a: real, b: real)
    requires
        t >= 0real,
        a <= b,
    ensures
        t * a <= t * b,
{
    assert(t * a <= t * b) by (nonlinear_arith)
        requires
            t >= 0real,
            a <= b,
    ;
}

/// Of all points of a sphere around the origin the one in the direction of a point
/// is the closest to that point.
pub proof fn lemma_nearest_on_sphere(t: real, n: Point, r: real, q: Point)
    requires
        t >= 0real,
        r > 0real,
        length_squared(n) == 1real,
        length_squared(q) == r * r,
    ensures
        apart(Point { x: t * n.x, y: t * n.y, z: t * n.z }, q) >= (t - r) * (t - r),
{
    let s: real = dot(n, q);
    let on: Point = Point { x: r * n.x, y: r * n.y, z: r * n.z };
    lemma_apart_along(r, n, q);
    lemma_natural_square(on.x - q.x);
    lemma_natural_square(on.y - q.y);
    lemma_natural_square(on.z - q.z);
    assert((r * r) * 1real == r * r && (t * t) * 1real == t * t);
    assert(r * s <= r * r);
    lemma_drop_factor(r, s, r);
    lemma_apart_along(t, n, q);
    lemma_grow_factor(t, s, r);
    lemma_square_of_difference(t, r);
}

/// The closest point of a sphere is computed without rounding.
pub open spec fn exact_sphere<F: Fn(Op, Scalar, Scalar, Scalar) -> Scalar>(
    ar: F,
    pos: Vec3,
    center: Vec3,
    radius: Scalar,
) -> bool {
    let d = minus_of(ar, pos, center);
    let dist = norm_of(ar, d);
    let inv = quotient(ar, Scalar::one(), dist);
    let n = scaled(ar, d, inv);
    &&& exact_norm(ar, d)
    &&& exact_root(ar, dot_of(ar, d, d))
    &&& exact_quotient(ar, Scalar::one(), dist)
    &&& exact_difference(ar, dist, radius)
    &&& exact_product(ar, radius, radius)
    &&& forall|k: int|
        0 <= k < 3 ==> {
            &&& exact_difference(ar, #[trigger] pos[k], center[k])
            &&& exact_product(ar, d[k], inv)
            &&& exact_product(ar, n[k], radius)
            &&& exact_sum(ar, center[k], product(ar, n[k], radius))
        }
}

/// Along one axis: the direction, and the point on the sphere.
proof fn lemma_sphere_axis(p: real, c: real, d: real, inv: real, dist: real, r: real)
    requires
        d == p - c,
        dist != 0real,
        inv == 1real / dist,
    ensures
        dist * (d * inv) == d,
        p == (c + (d * inv) * r) + (dist - r) * (d * inv),
{
    let n: real = d * inv;
    lemma_divided(1real, dist);
    lemma_mul_order(d, inv, dist);
    lemma_mul_order(n, dist, dist);
    assert(d * 1real == d);
    assert(n * dist == d);
    lemma_mul_add(n, dist, -r);
    lemma_mul_order(n, r, r);
    assert((-r) * n == -(r * n)) by (nonlinear_arith);
    assert((dist - r) * n == dist * n - r * n);
}

/// The closest point of a sphere: the normal is a unit vector, the position is the
/// point plus the distance along the normal, the point lies on the sphere, no point
/// of the sphere is closer, and the distance is negative exactly inside.
pub proof fn sphere_point_is_closest<F: Fn(Op, Scalar, Scalar, Scalar) -> Scalar>(
    ar: F,
    pos: Vec3,
    center: Vec3,
    radius: Scalar,
    q: Point,
)
    requires
        exact_sphere(ar, pos, center, radius),
        !radius.nan(),
        num(radius) > 0real,
        !norm_of(ar, minus_of(ar, pos, center)).below(tiny()),
        apart(q, point_of(center)) == num(radius) * num(radius),
    ensures
        ({
            let r = closest_on_sphere(ar, pos, center, radius);
            let n = point_of(r.normal);
            let at = point_of(r.point);
            let (p, t) = (point_of(pos), num(r.distance));
            &&& length_squared(n) == 1real
            &&& p.x == at.x + t * n.x && p.y == at.y + t * n.y && p.z == at.z + t * n.z
            &&& apart(at, point_of(center)) == num(radius) * num(radius)
            &&& apart(p, q) >= t * t
            &&& inside(ar, Region::Sphere { center, radius }, pos) <==> t <= 0real
        }),
{
    lemma_constants();
    let d: Vec3 = minus_of(ar, pos, center);
    let dist: real = num(norm_of(ar, d));
    let inv: real = num(quotient(ar, Scalar::one(), norm_of(ar, d)));
    let r: real = num(radius);
    let (p, c): (Point, Point) = (point_of(pos), point_of(center));
    let e: Point = point_of(d);
    let n: Point = Point { x: e.x * inv, y: e.y * inv, z: e.z * inv };
    let res: SurfaceResult = closest_on_sphere(ar, pos, center, radius);
    assert(exact_difference(ar, pos[0], center[0]) && exact_difference(ar, pos[1], center[1])
        && exact_difference(ar, pos[2], center[2]));
    lemma_sphere_axis(p.x, c.x, e.x, inv, dist, r);
    lemma_sphere_axis(p.y, c.y, e.y, inv, dist, r);
    lemma_sphere_axis(p.z, c.z, e.z, inv, dist, r);
    assert(point_of(res.normal) == n);
    let zero: Point = Point { x: 0real, y: 0real, z: 0real };
    // The length of the direction, by its square times that of the distance.
    lemma_apart_along(dist, n, zero);
    assert(n.x * 0real == 0real && n.y * 0real == 0real && n.z * 0real == 0real);
    assert(dist * 0real == 0real);
    assert(0real * 0real == 0real);
    assert((dist * dist) * length_squared(n) == dist * dist);
    lemma_natural_square(dist);
    assert(dist * dist != 0real) by (nonlinear_arith)
        requires
            dist != 0real,
    ;
    lemma_cancel(dist * dist, length_squared(n));
    let at: Point = point_of(res.point);
    lemma_mul_order(n.x, r, r);
    lemma_mul_order(n.y, r, r);
    lemma_mul_order(n.z, r, r);
    lemma_apart_along(r, n, zero);
    assert(r * 0real == 0real);
    assert((r * r) * 1real == r * r);
    assert(at.x - c.x == r * n.x && at.y - c.y == r * n.y && at.z - c.z == r * n.z);
    assert(apart(at, c) == apart(Point { x: r * n.x, y: r * n.y, z: r * n.z }, zero));
    let from: Point = Point { x: q.x - c.x, y: q.y - c.y, z: q.z - c.z };
    assert(length_squared(from) == apart(q, c));
    lemma_nearest_on_sphere(dist, n, r, from);
    assert(p.x - q.x == dist * n.x - from.x);
    assert(p.y - q.y == dist * n.y - from.y);
    assert(p.z - q.z == dist * n.z - from.z);
    assert(num(res.distance) == dist - r);
    lemma_order(product(ar, radius, radius), dot_of(ar, d, d));
    lemma_square_order(dist, r);
}

/// The closest point of a sphere from its centre: the normal is a unit vector, the
/// position is the point plus the distance along the normal, the point lies on the
/// sphere, no point of the sphere is closer, and the distance is negative.
pub proof fn sphere_center_has_a_closest_point<F: Fn(Op, Scalar, Scalar, Scalar) -> Scalar>(
    ar: F,
    pos: Vec3,
    center: Vec3,
    radius: Scalar,
    q: Point,
)
    requires
        point_of(pos) == point_of(center),
        norm_of(ar, minus_of(ar, pos, center)).below(tiny()),
        exact_sum(ar, center[0], radius),
        exact_product(ar, radius, radius),
        exact_norm(ar, minus_of(ar, pos, center)),
        forall|k: int| 0 <= k < 3 ==> exact_difference(ar, #[trigger] pos[k], center[k]),
        num(radius) > 0real,
        apart(q, point_of(center)) == num(radius) * num(radius),
    ensures
        ({
            let r = closest_on_sphere(ar, pos, center, radius);
            let n = point_of(r.normal);
            let at = point_of(r.point);
            let (p, t) = (point_of(pos), num(r.distance));
            &&& length_squared(n) == 1real
            &&& p.x == at.x + t * n.x && p.y == at.y + t * n.y && p.z == at.z + t * n.z
            &&& apart(at, point_of(center)) == num(radius) * num(radius)
            &&& apart(p, q) >= t * t
            &&& t < 0real
            &&& inside(ar, Region::Sphere { center, radius }, pos)
        }),
{
    lemma_constants();
    lemma_negated(radius);
    let d: Vec3 = minus_of(ar, pos, center);
    assert(exact_difference(ar, pos[0], center[0]) && exact_difference(ar, pos[1], center[1])
        && exact_difference(ar, pos[2], center[2]));
    lemma_natural_square(num(radius));
    lemma_order(product(ar, radius, radius), dot_of(ar, d, d));
    let (p, r): (Point, real) = (point_of(pos), num(radius));
    assert(0real * 0real == 0real && 1real * 1real == 1real);
    let t: real = -r;
    assert(t * 1real == t && t * 0real == 0real);
    assert((-r) * (-r) == r * r) by (nonlinear_arith);
    lemma_square_of_difference(p.x, q.x);
    lemma_square_of_difference(p.y, q.y);
    lemma_square_of_difference(p.z, q.z);
}

/// What times `a` is `a` is one.
pub proof fn lemma_cancel(a: real, x: real)
    requires
        a != 0real,
        a * x == a,
    ensures
        x == 1real,
{
    assert(a * x == a ==> x == 1real) by (nonlinear_arith)
        requires
            a != 0real,
    ;
}

/// Squares of natural numbers are ordered as the numbers are.
pub proof fn lemma_square_order(a: real, b: real)
    requires
        a >= 0real,
        b >= 0real,
    ensures
        a * a <= b * b <==> a <= b,
{
    if a <= b {
        assert(a * a <= b * b) by (nonlinear_arith)
            requires
                0real <= a <= b,
        ;
    } else {
        assert(a * a > b * b) by (nonlinear_arith)
            requires
                0real <= b < a,
        ;
    }
}

/// The result that looks at a point from outside is computed without rounding.
pub open spec fn exact_outside<F: Fn(Op, Scalar, Scalar, Scalar) -> Scalar>(
    ar: F,
    pos: Vec3,
    at: Vec3,
) -> bool {
    let d = minus_of(ar, pos, at);
    let dist = norm_of(ar, d);
    &&& exact_norm(ar, d)
    &&& exact_root(ar, dot_of(ar, d, d))
    &&& !dist.below(tiny())
    &&& forall|k: int|
        0 <= k < 3 ==> exact_difference(ar, #[trigger] pos[k], at[k]) && exact_quotient(
            ar,
            d[k],
            dist,
        )
}

/// Seen from outside: the normal is a unit vector, the position is the point plus
/// the distance along the normal, and the distance is that of the two.
pub proof fn outside_result_is_metric<F: Fn(Op, Scalar, Scalar, Scalar) -> Scalar>(
    ar: F,
    pos: Vec3,
    at: Vec3,
    fallback: Vec3,
)
    requires
        exact_outside(ar, pos, at),
    ensures
        ({
            let r = from_outside(ar, pos, at, fallback);
            let n = point_of(r.normal);
            let (p, a, t) = (point_of(pos), point_of(at), num(r.distance));
            &&& r.point == at
            &&& length_squared(n) == 1real
            &&& p.x == a.x + t * n.x && p.y == a.y + t * n.y && p.z == a.z + t * n.z
            &&& t > 0real
            &&& apart(p, a) == t * t
        }),
{
    let d: Vec3 = minus_of(ar, pos, at);
    let t: real = num(norm_of(ar, d));
    let e: Point = point_of(d);
    assert(exact_difference(ar, pos[0], at[0]) && exact_difference(ar, pos[1], at[1])
        && exact_difference(ar, pos[2], at[2]));
    assert(exact_quotient(ar, d[0], norm_of(ar, d)));
    assert(exact_quotient(ar, d[1], norm_of(ar, d)));
    assert(exact_quotient(ar, d[2], norm_of(ar, d)));
    let n: Point = Point { x: e.x / t, y: e.y / t, z: e.z / t };
    lemma_divided(e.x, t);
    lemma_divided(e.y, t);
    lemma_divided(e.z, t);
    lemma_mul_order(n.x, t, t);
    lemma_mul_order(n.y, t, t);
    lemma_mul_order(n.z, t, t);
    let zero: Point = Point { x: 0real, y: 0real, z: 0real };
    lemma_apart_along(t, n, zero);
    assert(n.x * 0real == 0real && n.y * 0real == 0real && n.z * 0real == 0real);
    assert(t * 0real == 0real);
    assert(0real * 0real == 0real);
    assert((t * t) * length_squared(n) == t * t);
    assert(t * t != 0real) by (nonlinear_arith)
        requires
            t != 0real,
    ;
    lemma_cancel(t * t, length_squared(n));
}

/// The face of a block that a point lies on.
pub open spec fn lies_on_face(q: Point, min: Vec3, max: Vec3, f: int) -> bool {
    let face = if f % 2 == 0 {
        point_of(min)
    } else {
        point_of(max)
    };
    if f / 2 == 0 {
        q.x == face.x
    } else if f / 2 == 1 {
        q.y == face.y
    } else {
        q.z == face.z
    }
}

/// The point lies in the block or on its surface.
pub open spec fn lies_in_block(q: Point, min: Vec3, max: Vec3) -> bool {
    let (a, b) = (point_of(min), point_of(max));
    a.x <= q.x <= b.x && a.y <= q.y <= b.y && a.z <= q.z <= b.z
}

pub open spec fn no_nans(v: Vec3) -> bool {
    !v[0].nan() && !v[1].nan() && !v[2].nan()
}

/// The closest point of a block from inside: the normal is the unit vector out of
/// the face, the position is the point plus the distance along the normal, the point
/// lies on the surface, no point of the surface is closer, and the distance is
/// negative or nothing.
pub proof fn block_point_is_closest_inside<F: Fn(Op, Scalar, Scalar, Scalar) -> Scalar>(
    ar: F,
    pos: Vec3,
    min: Vec3,
    max: Vec3,
    q: Point,
    g: int,
)
    requires
        no_nans(pos) && no_nans(min) && no_nans(max),
        inside(ar, Region::Block { min, max }, pos),
        forall|k: int|
            0 <= k < 3 ==> exact_difference(ar, #[trigger] pos[k], min[k]) && exact_difference(
                ar,
                max[k],
                pos[k],
            ),
        0 <= g < 6,
        lies_in_block(q, min, max),
        lies_on_face(q, min, max, g),
    ensures
        ({
            let r = closest_on_block(ar, pos, min, max);
            let n = point_of(r.normal);
            let at = point_of(r.point);
            let (p, t) = (point_of(pos), num(r.distance));
            &&& length_squared(n) == 1real
            &&& p.x == at.x + t * n.x && p.y == at.y + t * n.y && p.z == at.z + t * n.z
            &&& lies_in_block(at, min, max)
            &&& exists|f: int| 0 <= f < 6 && #[trigger] lies_on_face(at, min, max, f)
            &&& apart(p, q) >= t * t
            &&& t <= 0real
        }),
{
    lemma_constants();
    let faces: Seq<Scalar> = face_distances(ar, pos, min, max);
    assert(exact_difference(ar, pos[0], min[0]) && exact_difference(ar, max[0], pos[0]));
    assert(exact_difference(ar, pos[1], min[1]) && exact_difference(ar, max[1], pos[1]));
    assert(exact_difference(ar, pos[2], min[2]) && exact_difference(ar, max[2], pos[2]));
    lemma_order(pos[0], min[0]);
    lemma_order(pos[1], min[1]);
    lemma_order(pos[2], min[2]);
    lemma_order(max[0], pos[0]);
    lemma_order(max[1], pos[1]);
    lemma_order(max[2], pos[2]);
    assert forall|i: int| 0 <= i < 6 implies !(#[trigger] faces[i]).nan() by {}
    least_is_least(faces, 6);
    let f: int = least_at(faces, 6);
    let r: SurfaceResult = closest_on_block(ar, pos, min, max);
    let (p, at): (Point, Point) = (point_of(pos), point_of(r.point));
    let n: Point = point_of(r.normal);
    let t: real = num(r.distance);
    lemma_negated(faces[f]);
    lemma_order(faces[g], faces[f]);
    assert(!faces[g].below(faces[f]));
    let (a, b): (real, real) = (num(faces[f]), num(faces[g]));
    assert(t == -a);
    assert(0real <= a <= b);
    lemma_square_order(a, b);
    assert((-a) * (-a) == a * a) by (nonlinear_arith);
    assert(0real * 0real == 0real && 1real * 1real == 1real && (-1real) * (-1real) == 1real);
    assert(t * 0real == 0real && t * 1real == t && t * (-1real) == -t);
    assert(lies_on_face(at, min, max, f));
    lemma_natural_square(p.x - q.x);
    lemma_natural_square(p.y - q.y);
    lemma_natural_square(p.z - q.z);
    let (x, y, z): (real, real, real) = (p.x - q.x, p.y - q.y, p.z - q.z);
    assert((-b) * (-b) == b * b) by (nonlinear_arith);
    assert(g / 2 == 0 ==> x == b || x == -b);
    assert(g / 2 == 1 ==> y == b || y == -b);
    assert(g / 2 == 2 ==> z == b || z == -b);
}

/// Moving a coordinate into a range moves it no farther than to any number of the
/// range.
proof fn lemma_clamped_axis(x: Scalar, lo: Scalar, hi: Scalar, q: real)
    requires
        !x.nan() && !lo.nan() && !hi.nan(),
        num(lo) <= q <= num(hi),
    ensures
        num(lo) <= num(x.clamped(lo, hi)) <= num(hi),
        (num(x) - num(x.clamped(lo, hi))) * (num(x) - num(x.clamped(lo, hi))) <= (num(x) - q) * (num(
            x,
        ) - q),
{
    lemma_order(x, lo);
    lemma_order(hi, x);
    let (a, b): (real, real) = (num(x) - num(x.clamped(lo, hi)), num(x) - q);
    lemma_natural_square(b);
    if x.below(lo) {
        lemma_square_order(-a, -b);
        assert((-a) * (-a) == a * a) by (nonlinear_arith);
        assert((-b) * (-b) == b * b) by (nonlinear_arith);
    } else if hi.below(x) {
        lemma_square_order(a, b);
    } else {
        assert(0real * 0real == 0real);
    }
}

/// The closest point of a block from outside: the normal is a unit vector, the
/// position is the point plus the distance along the normal, the point lies on the
/// surface, no point of the block is closer, and the distance is positive.
pub proof fn block_point_is_closest_outside<F: Fn(Op, Scalar, Scalar, Scalar) -> Scalar>(
    ar: F,
    pos: Vec3,
    min: Vec3,
    max: Vec3,
    q: Point,
)
    requires
        no_nans(pos) && no_nans(min) && no_nans(max),
        !inside(ar, Region::Block { min, max }, pos),
        exact_outside(ar, pos, closest_on_block(ar, pos, min, max).point),
        lies_in_block(q, min, max),
    ensures
        ({
            let r = closest_on_block(ar, pos, min, max);
            let n = point_of(r.normal);
            let at = point_of(r.point);
            let (p, t) = (point_of(pos), num(r.distance));
            &&& length_squared(n) == 1real
            &&& p.x == at.x + t * n.x && p.y == at.y + t * n.y && p.z == at.z + t * n.z
            &&& lies_in_block(at, min, max)
            &&& exists|f: int| 0 <= f < 6 && #[trigger] lies_on_face(at, min, max, f)
            &&& apart(p, q) >= t * t
            &&& t > 0real
        }),
{
    let foot: Vec3 = [
        pos[0].clamped(min[0], max[0]),
        pos[1].clamped(min[1], max[1]),
        pos[2].clamped(min[2], max[2]),
    ];
    let up: Vec3 = crate::ghosts::along(2, Scalar::one());
    assert(closest_on_block(ar, pos, min, max) == from_outside(ar, pos, foot, up));
    outside_result_is_metric(ar, pos, foot, up);
    lemma_clamped_axis(pos[0], min[0], max[0], q.x);
    lemma_clamped_axis(pos[1], min[1], max[1], q.y);
    lemma_clamped_axis(pos[2], min[2], max[2], q.z);
    let d: int = choose|d: int|
        0 <= d < 3 && !((#[trigger] pos[d]).at_least(min[d]) && max[d].at_least(pos[d]));
    assert(0 <= d < 3 && !(pos[d].at_least(min[d]) && max[d].at_least(pos[d])));
    lemma_order(pos[d], min[d]);
    lemma_order(max[d], pos[d]);
    let at: Point = point_of(foot);
    if pos[d].below(min[d]) {
        assert(lies_on_face(at, min, max, 2 * d));
    } else {
        assert(lies_on_face(at, min, max, 2 * d + 1));
    }
}

} // verus!

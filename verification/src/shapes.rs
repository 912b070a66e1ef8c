//! Which points a region contains, where no operation rounds.

use crate::constants::tiny_is_what_it_says;
use crate::energy::exact_dot;
use crate::exact::{
    exact_difference, exact_product, exact_quotient, exact_root, exact_sum, lemma_constants,
    lemma_divided, lemma_mul_add, lemma_mul_order, lemma_order, num,
};
use crate::geometry::{apart, dot, length_squared, point_of, Point};
use crate::region::{
    closest_on_plane, cone_radius, decomposed, inside, squares, tiny, Axis, Region,
};
use crate::scalar::{difference, product, quotient, Op, Scalar, Vec3};
use crate::vec3::{dot_of, minus_of, norm_of};
use vstd::prelude::*;

verus! {

/// A point seen along an axis: how far along it, and the two coordinates across.
pub open spec fn seen_along(p: Point, axis: Axis) -> (real, real, real) {
    match axis {
        Axis::X => (p.x, p.y, p.z),
        Axis::Y => (p.y, p.x, p.z),
        Axis::Z => (p.z, p.x, p.y),
    }
}

/// A block contains the points between its corners.
pub proof fn blocks_contain_what_lies_between<F: Fn(Op, Scalar, Scalar, Scalar) -> Scalar>(
    ar: F,
    min: Vec3,
    max: Vec3,
    pos: Vec3,
)
    requires
        forall|d: int|
            0 <= d < 3 ==> !(#[trigger] pos[d]).nan() && !min[d].nan() && !max[d].nan(),
    ensures
        inside(ar, Region::Block { min, max }, pos) <==> num(min[0]) <= num(pos[0]) <= num(max[0])
            && num(min[1]) <= num(pos[1]) <= num(max[1]) && num(min[2]) <= num(pos[2]) <= num(
            max[2],
        ),
{
    assert forall|d: int| 0 <= d < 3 implies ((#[trigger] pos[d]).at_least(min[d]) <==> num(pos[d])
        >= num(min[d])) && (max[d].at_least(pos[d]) <==> num(max[d]) >= num(pos[d])) by {
        lemma_order(pos[d], min[d]);
        lemma_order(max[d], pos[d]);
    }
    assert(pos[0] == pos[0] && pos[1] == pos[1] && pos[2] == pos[2]);
}

/// A sphere contains the points that are no farther from its centre than its radius.
pub proof fn spheres_contain_what_is_near<F: Fn(Op, Scalar, Scalar, Scalar) -> Scalar>(
    ar: F,
    center: Vec3,
    radius: Scalar,
    pos: Vec3,
)
    requires
        forall|d: int| 0 <= d < 3 ==> exact_difference(ar, #[trigger] pos[d], center[d]),
        exact_dot(ar, minus_of(ar, pos, center), minus_of(ar, pos, center)),
        exact_product(ar, radius, radius),
    ensures
        inside(ar, Region::Sphere { center, radius }, pos) <==> apart(
            point_of(pos),
            point_of(center),
        ) <= num(radius) * num(radius),
{
    let d: Vec3 = minus_of(ar, pos, center);
    assert(exact_difference(ar, pos[0], center[0]) && exact_difference(ar, pos[1], center[1])
        && exact_difference(ar, pos[2], center[2]));
    lemma_order(product(ar, radius, radius), dot_of(ar, d, d));
}

/// The offsets from a centre line and their squares are computed without rounding.
pub open spec fn exact_offsets<F: Fn(Op, Scalar, Scalar, Scalar) -> Scalar>(
    ar: F,
    pos: Vec3,
    center: [Scalar; 2],
    axis: Axis,
) -> bool {
    let (a, b) = match axis {
        Axis::X => (pos[1], pos[2]),
        Axis::Y => (pos[0], pos[2]),
        Axis::Z => (pos[0], pos[1]),
    };
    let (u, v) = (difference(ar, a, center[0]), difference(ar, b, center[1]));
    &&& exact_difference(ar, a, center[0])
    &&& exact_difference(ar, b, center[1])
    &&& exact_product(ar, u, u)
    &&& exact_product(ar, v, v)
    &&& exact_sum(ar, product(ar, u, u), product(ar, v, v))
}

proof fn lemma_off_the_line<F: Fn(Op, Scalar, Scalar, Scalar) -> Scalar>(
    ar: F,
    pos: Vec3,
    center: [Scalar; 2],
    axis: Axis,
)
    requires
        exact_offsets(ar, pos, center, axis),
    ensures
        ({
            let (axial, r0, r1) = decomposed(ar, pos, center, axis);
            let (a, u, v) = seen_along(point_of(pos), axis);
            let (x, y) = (u - num(center[0]), v - num(center[1]));
            &&& num(axial) == a
            &&& !squares(ar, r0, r1).nan()
            &&& num(squares(ar, r0, r1)) == x * x + y * y
        }),
{
}

/// A cylinder contains the points between its ends that are no farther from its centre
/// line than its radius.
pub proof fn cylinders_contain_what_is_near_their_line<
    F: Fn(Op, Scalar, Scalar, Scalar) -> Scalar,
>(
    ar: F,
    center: [Scalar; 2],
    radius: Scalar,
    axis: Axis,
    lo: Scalar,
    hi: Scalar,
    pos: Vec3,
)
    requires
        exact_offsets(ar, pos, center, axis),
        exact_product(ar, radius, radius),
        !lo.nan() && !hi.nan(),
        forall|d: int| 0 <= d < 3 ==> !(#[trigger] pos[d]).nan(),
    ensures
        ({
            let (a, u, v) = seen_along(point_of(pos), axis);
            let (x, y) = (u - num(center[0]), v - num(center[1]));
            inside(ar, Region::Cylinder { center, radius, axis, lo, hi }, pos) <==> num(lo) <= a
                <= num(hi) && x * x + y * y <= num(radius) * num(radius)
        }),
{
    lemma_off_the_line(ar, pos, center, axis);
    let (axial, r0, r1): (Scalar, Scalar, Scalar) = decomposed(ar, pos, center, axis);
    assert(!pos[0].nan() && !pos[1].nan() && !pos[2].nan());
    lemma_order(axial, lo);
    lemma_order(hi, axial);
    lemma_order(product(ar, radius, radius), squares(ar, r0, r1));
}

/// The radius of a cone is computed without rounding.
pub open spec fn exact_cone_radius<F: Fn(Op, Scalar, Scalar, Scalar) -> Scalar>(
    ar: F,
    axial: Scalar,
    rad_lo: Scalar,
    rad_hi: Scalar,
    lo: Scalar,
    hi: Scalar,
) -> bool {
    let t = quotient(ar, difference(ar, axial, lo), difference(ar, hi, lo));
    let more = difference(ar, rad_hi, rad_lo);
    &&& exact_difference(ar, axial, lo)
    &&& exact_difference(ar, hi, lo)
    &&& exact_quotient(ar, difference(ar, axial, lo), difference(ar, hi, lo))
    &&& exact_difference(ar, rad_hi, rad_lo)
    &&& exact_product(ar, t, more)
    &&& exact_sum(ar, rad_lo, product(ar, t, more))
}

/// The radius of a cone goes evenly from that of the lower end to that of the upper one.
pub proof fn cone_radius_is_even<F: Fn(Op, Scalar, Scalar, Scalar) -> Scalar>(
    ar: F,
    axial: Scalar,
    rad_lo: Scalar,
    rad_hi: Scalar,
    lo: Scalar,
    hi: Scalar,
)
    requires
        exact_cone_radius(ar, axial, rad_lo, rad_hi, lo, hi),
        num(hi) - num(lo) >= 1real / 1000000000000000000000000000real,
    ensures
        !cone_radius(ar, axial, rad_lo, rad_hi, lo, hi).nan(),
        num(cone_radius(ar, axial, rad_lo, rad_hi, lo, hi)) * (num(hi) - num(lo)) == num(rad_lo) * (
        num(hi) - num(axial)) + num(rad_hi) * (num(axial) - num(lo)),
{
    lemma_constants();
    tiny_is_what_it_says();
    let size: Scalar = difference(ar, hi, lo);
    crate::exact::lemma_sign(size);
    assert(num(size) > 0real) by (nonlinear_arith)
        requires
            num(size) >= 1real / 1000000000000000000000000000real,
    ;
    assert(size.absolute() == size) by {
        assert(!size.negative());
    }
    let s: real = num(tiny());
    assert(s < 1real / 1000000000000000000000000000real) by (nonlinear_arith)
        requires
            s * 1000000000000000000000000000000000000real < 1000001real,
    ;
    lemma_order(tiny(), size);
    let (l, x): (real, real) = (num(size), num(axial) - num(lo));
    let (r, m): (real, real) = (num(rad_lo), num(rad_hi) - num(rad_lo));
    lemma_divided(x, l);
    let t: real = x / l;
    lemma_mul_add(l, r, t * m);
    lemma_mul_order(t, m, l);
    lemma_mul_order(t, l, m);
    lemma_mul_order(m, l, 1real);
    // r l + x m is r (l - x) + (r + m) x.
    lemma_mul_add(r, l - x, x);
    lemma_mul_add(x, r, m);
    lemma_mul_order(x, m, 1real);
    lemma_mul_order(x, r, 1real);
}

/// A cone contains the points between its ends that are no farther from its centre line
/// than its radius there.
pub proof fn cones_contain_what_is_near_their_line<F: Fn(Op, Scalar, Scalar, Scalar) -> Scalar>(
    ar: F,
    center: [Scalar; 2],
    axis: Axis,
    rad_lo: Scalar,
    rad_hi: Scalar,
    lo: Scalar,
    hi: Scalar,
    pos: Vec3,
    radius: real,
)
    requires
        exact_offsets(ar, pos, center, axis),
        forall|d: int| 0 <= d < 3 ==> !(#[trigger] pos[d]).nan(),
        !lo.nan() && !hi.nan(),
        ({
            let axial = match axis {
                Axis::X => pos[0],
                Axis::Y => pos[1],
                Axis::Z => pos[2],
            };
            let r = cone_radius(ar, axial, rad_lo, rad_hi, lo, hi);
            &&& exact_cone_radius(ar, axial, rad_lo, rad_hi, lo, hi)
            &&& exact_product(ar, r, r)
        }),
        num(hi) - num(lo) >= 1real / 1000000000000000000000000000real,
        ({
            let a = seen_along(point_of(pos), axis).0;
            radius * (num(hi) - num(lo)) == num(rad_lo) * (num(hi) - a) + num(rad_hi) * (a - num(
                lo,
            ))
        }),
    ensures
        ({
            let (a, u, v) = seen_along(point_of(pos), axis);
            let (x, y) = (u - num(center[0]), v - num(center[1]));
            inside(ar, Region::Cone { center, axis, rad_lo, rad_hi, lo, hi }, pos) <==> num(lo) <= a
                <= num(hi) && x * x + y * y <= radius * radius
        }),
{
    lemma_off_the_line(ar, pos, center, axis);
    let (axial, r0, r1): (Scalar, Scalar, Scalar) = decomposed(ar, pos, center, axis);
    assert(!pos[0].nan() && !pos[1].nan() && !pos[2].nan());
    lemma_order(axial, lo);
    lemma_order(hi, axial);
    cone_radius_is_even(ar, axial, rad_lo, rad_hi, lo, hi);
    let r: Scalar = cone_radius(ar, axial, rad_lo, rad_hi, lo, hi);
    let (p, l): (real, real) = (num(r), num(hi) - num(lo));
    assert(p == radius) by (nonlinear_arith)
        requires
            p * l == radius * l,
            l >= 1real / 1000000000000000000000000000real,
    ;
    lemma_order(product(ar, r, r), squares(ar, r0, r1));
}

/// A plane bounds the points on the side that its normal points to.
pub proof fn planes_contain_the_side_of_their_normal<F: Fn(Op, Scalar, Scalar, Scalar) -> Scalar>(
    ar: F,
    point: Vec3,
    normal: Vec3,
    pos: Vec3,
)
    requires
        forall|d: int| 0 <= d < 3 ==> exact_difference(ar, #[trigger] pos[d], point[d]),
        exact_dot(ar, minus_of(ar, pos, point), normal),
    ensures
        ({
            let (p, q) = (point_of(pos), point_of(point));
            let way = Point { x: p.x - q.x, y: p.y - q.y, z: p.z - q.z };
            inside(ar, Region::Plane { point, normal }, pos) <==> dot(way, point_of(normal))
                >= 0real
        }),
{
    lemma_constants();
    assert(exact_difference(ar, pos[0], point[0]) && exact_difference(ar, pos[1], point[1])
        && exact_difference(ar, pos[2], point[2]));
    lemma_order(dot_of(ar, minus_of(ar, pos, point), normal), Scalar::zero());
}

/// The closest point of a plane is found without rounding.
pub open spec fn exact_foot<F: Fn(Op, Scalar, Scalar, Scalar) -> Scalar>(
    ar: F,
    pos: Vec3,
    point: Vec3,
    normal: Vec3,
) -> bool {
    let mag = norm_of(ar, normal);
    let n: Vec3 = [
        quotient(ar, normal[0], mag),
        quotient(ar, normal[1], mag),
        quotient(ar, normal[2], mag),
    ];
    let away = minus_of(ar, pos, point);
    let dist = dot_of(ar, away, n);
    &&& exact_dot(ar, normal, normal)
    &&& exact_root(ar, dot_of(ar, normal, normal))
    &&& forall|d: int| 0 <= d < 3 ==> exact_quotient(ar, #[trigger] normal[d], mag)
    &&& forall|d: int| 0 <= d < 3 ==> exact_difference(ar, #[trigger] pos[d], point[d])
    &&& exact_dot(ar, away, n)
    &&& forall|d: int|
        0 <= d < 3 ==> exact_product(ar, dist, #[trigger] n[d]) && exact_difference(
            ar,
            pos[d],
            product(ar, dist, n[d]),
        )
}

/// The closest point of a plane lies on it, straight below or above the position, and
/// no point of the plane is nearer. The distance is positive on the side of the normal.
pub proof fn plane_point_is_closest<F: Fn(Op, Scalar, Scalar, Scalar) -> Scalar>(
    ar: F,
    pos: Vec3,
    point: Vec3,
    normal: Vec3,
    q: Point,
)
    requires
        exact_foot(ar, pos, point, normal),
        tiny().below(norm_of(ar, normal)),
        ({
            let (o, n) = (point_of(point), point_of(normal));
            dot(Point { x: q.x - o.x, y: q.y - o.y, z: q.z - o.z }, n) == 0real
        }),
    ensures
        ({
            let r = closest_on_plane(ar, pos, point, normal);
            let (p, at, n) = (point_of(pos), point_of(r.point), point_of(r.normal));
            let (o, t) = (point_of(point), num(r.distance));
            &&& length_squared(n) == 1real
            &&& p.x == at.x + t * n.x && p.y == at.y + t * n.y && p.z == at.z + t * n.z
            &&& dot(Point { x: at.x - o.x, y: at.y - o.y, z: at.z - o.z }, n) == 0real
            &&& apart(p, q) >= t * t
            &&& t == dot(Point { x: p.x - o.x, y: p.y - o.y, z: p.z - o.z }, n)
            &&& n.x * num(norm_of(ar, normal)) == num(normal[0])
            &&& n.y * num(norm_of(ar, normal)) == num(normal[1])
            &&& n.z * num(norm_of(ar, normal)) == num(normal[2])
        }),
{
    let r: crate::region::SurfaceResult = closest_on_plane(ar, pos, point, normal);
    let mag: Scalar = norm_of(ar, normal);
    let (p, at, n): (Point, Point, Point) = (point_of(pos), point_of(r.point), point_of(r.normal));
    let (o, t, m): (Point, real, real) = (point_of(point), num(r.distance), num(mag));
    assert(exact_quotient(ar, normal[0], mag) && exact_quotient(ar, normal[1], mag)
        && exact_quotient(ar, normal[2], mag));
    assert(exact_difference(ar, pos[0], point[0]) && exact_difference(ar, pos[1], point[1])
        && exact_difference(ar, pos[2], point[2]));
    assert(r.normal[0] == quotient(ar, normal[0], mag));
    let unit: Vec3 = r.normal;
    assert(unit =~= [
        quotient(ar, normal[0], mag),
        quotient(ar, normal[1], mag),
        quotient(ar, normal[2], mag),
    ]);
    let dist: Scalar = dot_of(ar, minus_of(ar, pos, point), unit);
    assert(exact_product(ar, dist, unit[0]) && exact_product(ar, dist, unit[1]) && exact_product(
        ar,
        dist,
        unit[2],
    ));
    lemma_divided(num(normal[0]), m);
    lemma_divided(num(normal[1]), m);
    lemma_divided(num(normal[2]), m);
    lemma_unit_length(n, m, point_of(normal));
    // The foot lies on the plane.
    let way: Point = Point { x: p.x - o.x, y: p.y - o.y, z: p.z - o.z };
    assert(at.x == p.x - t * n.x && at.y == p.y - t * n.y && at.z == p.z - t * n.z);
    lemma_take_off(way.x, t, n.x);
    lemma_take_off(way.y, t, n.y);
    lemma_take_off(way.z, t, n.z);
    lemma_mul_add(t, n.x * n.x, n.y * n.y);
    lemma_mul_add(t, n.x * n.x + n.y * n.y, n.z * n.z);
    assert(t * 1real == t);
    assert(dot(Point { x: at.x - o.x, y: at.y - o.y, z: at.z - o.z }, n) == 0real) by {
        assert(at.x - o.x == way.x - t * n.x);
        assert(at.y - o.y == way.y - t * n.y);
        assert(at.z - o.z == way.z - t * n.z);
    }
    // The way to q has a part t along the normal.
    let d: Point = Point { x: p.x - q.x, y: p.y - q.y, z: p.z - q.z };
    let e: Point = Point { x: q.x - o.x, y: q.y - o.y, z: q.z - o.z };
    lemma_across(e, n, m, point_of(normal));
    lemma_split(d.x, e.x, n.x);
    lemma_split(d.y, e.y, n.y);
    lemma_split(d.z, e.z, n.z);
    assert(way.x == d.x + e.x && way.y == d.y + e.y && way.z == d.z + e.z);
    assert(dot(d, n) == t);
    lemma_part_is_shorter(d, n, t);
}

proof fn lemma_take_off(w: real, t: real, n: real)
    ensures
        (w - t * n) * n == w * n - t * (n * n),
{
    lemma_mul_add(n, w, -(t * n));
    lemma_mul_order(t, n, n);
    let a: real = t * n;
    assert((-a) * n == -(a * n)) by (nonlinear_arith);
}

proof fn lemma_split(a: real, b: real, n: real)
    ensures
        (a + b) * n == a * n + b * n,
{
    lemma_mul_add(n, a, b);
}

/// A vector divided by its length has length one.
proof fn lemma_unit_length(n: Point, m: real, v: Point)
    requires
        m != 0real,
        n.x * m == v.x && n.y * m == v.y && n.z * m == v.z,
        m * m == length_squared(v),
    ensures
        length_squared(n) == 1real,
{
    lemma_square_of_two(n.x, m);
    lemma_square_of_two(n.y, m);
    lemma_square_of_two(n.z, m);
    let (s, k): (real, real) = (m * m, length_squared(n));
    lemma_mul_add(s, n.x * n.x, n.y * n.y);
    lemma_mul_add(s, n.x * n.x + n.y * n.y, n.z * n.z);
    assert(k * s == s);
    assert(s != 0real) by (nonlinear_arith)
        requires
            s == m * m,
            m != 0real,
    ;
    lemma_mul_order(k, s, 1real);
    crate::geometry::lemma_cancel(s, k);
}

proof fn lemma_square_of_two(a: real, m: real)
    ensures
        (a * m) * (a * m) == (a * a) * (m * m),
{
    assert((a * m) * (a * m) == (a * a) * (m * m)) by (nonlinear_arith);
}

/// What is at a right angle to a vector is so to its direction.
proof fn lemma_across(e: Point, n: Point, m: real, v: Point)
    requires
        m != 0real,
        n.x * m == v.x && n.y * m == v.y && n.z * m == v.z,
        dot(e, v) == 0real,
    ensures
        dot(e, n) == 0real,
{
    lemma_mul_order(e.x, n.x, m);
    lemma_mul_order(e.y, n.y, m);
    lemma_mul_order(e.z, n.z, m);
    let k: real = dot(e, n);
    lemma_mul_add(m, e.x * n.x, e.y * n.y);
    lemma_mul_add(m, e.x * n.x + e.y * n.y, e.z * n.z);
    assert(k * m == 0real);
    assert(k == 0real) by (nonlinear_arith)
        requires
            k * m == 0real,
            m != 0real,
    ;
}

/// The part of a way along a direction is no longer than the way.
proof fn lemma_part_is_shorter(d: Point, n: Point, t: real)
    requires
        length_squared(n) == 1real,
        dot(d, n) == t,
    ensures
        length_squared(d) >= t * t,
{
    crate::geometry::lemma_apart_along(t, n, d);
    let f: Point = Point { x: t * n.x, y: t * n.y, z: t * n.z };
    lemma_not_negative(f.x - d.x);
    lemma_not_negative(f.y - d.y);
    lemma_not_negative(f.z - d.z);
    lemma_mul_order(n.x, d.x, 1real);
    lemma_mul_order(n.y, d.y, 1real);
    lemma_mul_order(n.z, d.z, 1real);
    assert((t * t) * 1real == t * t);
    assert(apart(f, d) >= 0real);
}

proof fn lemma_not_negative(a: real)
    ensures
        a * a >= 0real,
{
    assert(a * a >= 0real) by (nonlinear_arith);
}

} // verus!

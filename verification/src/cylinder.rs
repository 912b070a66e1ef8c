//! What the closest point of a cylinder is, where no operation rounds.

use crate::drawn::{exact_norm, exact_squares, lemma_natural_square};
use crate::exact::{
    exact_difference, exact_product, exact_quotient, exact_root, exact_sum, lemma_constants,
    lemma_divided, lemma_mul_add, lemma_mul_order, lemma_negated, lemma_order, lemma_sign, lemma_zero_over_unit, num,
};
use crate::geometry::{
    apart, dot, exact_outside, length_squared, lemma_apart_along, lemma_cancel, lemma_drop_factor,
    lemma_nearest_on_sphere, lemma_square_of_difference, lemma_square_order,
    outside_result_is_metric, point_of, Point,
};
use crate::region::{
    along_axis, beyond, cap_point, closest_on_cylinder, curved_candidate, decomposed, from_outside,
    inside, least_at, squares, tiny, Axis, Region, SurfaceResult,
};
use crate::scalar::{difference, product, quotient, root, Op, Scalar, Vec3};
use crate::vec3::{dot_of, minus_of, norm_of};
use vstd::prelude::*;

verus! {

/// A point by its coordinate along the axis and its offset from the centre line.
pub open spec fn seen(v: Vec3, center: [Scalar; 2], axis: Axis) -> Point {
    let (c0, c1) = (num(center[0]), num(center[1]));
    match axis {
        Axis::X => Point { x: num(v[0]), y: num(v[1]) - c0, z: num(v[2]) - c1 },
        Axis::Y => Point { x: num(v[1]), y: num(v[0]) - c0, z: num(v[2]) - c1 },
        Axis::Z => Point { x: num(v[2]), y: num(v[0]) - c0, z: num(v[1]) - c1 },
    }
}

/// A vector by its components along the axis and across it.
pub open spec fn turned(v: Vec3, axis: Axis) -> Point {
    match axis {
        Axis::X => Point { x: num(v[0]), y: num(v[1]), z: num(v[2]) },
        Axis::Y => Point { x: num(v[1]), y: num(v[0]), z: num(v[2]) },
        Axis::Z => Point { x: num(v[2]), y: num(v[0]), z: num(v[1]) },
    }
}

/// The square of the distance from the centre line.
pub open spec fn across(q: Point) -> real {
    q.y * q.y + q.z * q.z
}

/// The point lies on the surface of the cylinder: between the ends at the radius,
/// or on one of the ends.
pub open spec fn on_cylinder(q: Point, radius: real, lo: real, hi: real) -> bool {
    ||| lo <= q.x <= hi && across(q) == radius * radius
    ||| (q.x == lo || q.x == hi) && across(q) <= radius * radius
}

/// The direction from the centre line to the position; on the centre line the first
/// direction across it.
pub open spec fn direction<F: Fn(Op, Scalar, Scalar, Scalar) -> Scalar>(
    ar: F,
    pos: Vec3,
    center: [Scalar; 2],
    axis: Axis,
) -> (real, real) {
    let (axial, d0, d1) = decomposed(ar, pos, center, axis);
    let radial = root(ar, squares(ar, d0, d1));
    let inv = quotient(ar, Scalar::one(), radial);
    if radial.below(tiny()) {
        (1real, 0real)
    } else {
        (num(product(ar, d0, inv)), num(product(ar, d1, inv)))
    }
}

/// The closest point of a cylinder from inside is computed without rounding. The
/// position lies on the centre line or farther away from it than what counts as
/// nothing.
pub open spec fn exact_inside<F: Fn(Op, Scalar, Scalar, Scalar) -> Scalar>(
    ar: F,
    pos: Vec3,
    center: [Scalar; 2],
    radius: Scalar,
    axis: Axis,
    lo: Scalar,
    hi: Scalar,
) -> bool {
    let (axial, d0, d1) = decomposed(ar, pos, center, axis);
    let radial = root(ar, squares(ar, d0, d1));
    let inv = quotient(ar, Scalar::one(), radial);
    let (n0, n1) = (product(ar, d0, inv), product(ar, d1, inv));
    &&& !axial.nan() && !lo.nan() && !hi.nan() && !radius.nan()
    &&& num(d0) == seen(pos, center, axis).y && num(d1) == seen(pos, center, axis).z
    &&& exact_squares(ar, d0, d1)
    &&& exact_root(ar, squares(ar, d0, d1))
    &&& exact_difference(ar, radial, radius) && exact_difference(ar, radius, radial)
    &&& exact_difference(ar, axial, lo) && exact_difference(ar, hi, axial)
    &&& if radial.below(tiny()) {
        &&& num(radial) == 0real
        &&& exact_sum(ar, center[0], radius) && exact_sum(ar, center[0], Scalar::zero())
        &&& exact_sum(ar, center[1], Scalar::zero())
    } else {
        &&& exact_quotient(ar, Scalar::one(), radial)
        &&& exact_product(ar, d0, inv) && exact_product(ar, d1, inv)
        &&& exact_product(ar, n0, radius) && exact_product(ar, n1, radius)
        &&& exact_product(ar, n0, radial) && exact_product(ar, n1, radial)
        &&& exact_sum(ar, center[0], product(ar, n0, radius))
        &&& exact_sum(ar, center[1], product(ar, n1, radius))
        &&& exact_sum(ar, center[0], product(ar, n0, radial))
        &&& exact_sum(ar, center[1], product(ar, n1, radial))
    }
}

/// What has nothing as the sum of its squares is nothing.
pub proof fn lemma_no_squares(a: real, b: real)
    requires
        a * a + b * b == 0real,
    ensures
        a == 0real,
        b == 0real,
{
    lemma_natural_square(a);
    lemma_natural_square(b);
    assert(a * a == 0real ==> a == 0real) by (nonlinear_arith);
    assert(b * b == 0real ==> b == 0real) by (nonlinear_arith);
}

/// The direction across the axis is a unit vector, and the offset is its multiple.
pub proof fn lemma_direction(d0: real, d1: real, radial: real, inv: real)
    requires
        radial != 0real,
        inv == 1real / radial,
        radial * radial == d0 * d0 + d1 * d1,
    ensures
        radial * (d0 * inv) == d0,
        radial * (d1 * inv) == d1,
        (d0 * inv) * radial == d0,
        (d1 * inv) * radial == d1,
        (d0 * inv) * (d0 * inv) + (d1 * inv) * (d1 * inv) == 1real,
{
    let (n0, n1): (real, real) = (d0 * inv, d1 * inv);
    lemma_divided(1real, radial);
    lemma_mul_order(d0, inv, radial);
    lemma_mul_order(d1, inv, radial);
    assert(d0 * 1real == d0 && d1 * 1real == d1);
    lemma_mul_order(n0, radial, radial);
    lemma_mul_order(n1, radial, radial);
    let n: Point = Point { x: 0real, y: n0, z: n1 };
    let zero: Point = Point { x: 0real, y: 0real, z: 0real };
    lemma_apart_along(radial, n, zero);
    assert(n0 * 0real == 0real && n1 * 0real == 0real && radial * 0real == 0real);
    assert(0real * 0real == 0real);
    assert((radial * radial) * length_squared(n) == radial * radial);
    assert(radial * radial != 0real) by (nonlinear_arith)
        requires
            radial != 0real,
    ;
    lemma_cancel(radial * radial, length_squared(n));
}

/// No point at the radius is closer than the difference of the radii.
proof fn lemma_curved_bound(p: Point, q: Point, n0: real, n1: real, radial: real, radius: real)
    requires
        radial >= 0real,
        radius > 0real,
        n0 * n0 + n1 * n1 == 1real,
        p.y == radial * n0,
        p.z == radial * n1,
        across(q) == radius * radius,
    ensures
        apart(p, q) >= (radial - radius) * (radial - radius),
{
    let n: Point = Point { x: 0real, y: n0, z: n1 };
    let flat: Point = Point { x: 0real, y: q.y, z: q.z };
    assert(0real * 0real == 0real && radial * 0real == 0real);
    lemma_nearest_on_sphere(radial, n, radius, flat);
    lemma_natural_square(p.x - q.x);
}

/// The closest point of a cylinder from inside: the normal is a unit vector, the position is the point plus the distance along the
/// normal, the point lies on the surface, no point of the surface is closer, and the
/// distance is negative or nothing.
pub proof fn cylinder_point_is_closest_inside<F: Fn(Op, Scalar, Scalar, Scalar) -> Scalar>(
    ar: F,
    pos: Vec3,
    center: [Scalar; 2],
    radius: Scalar,
    axis: Axis,
    lo: Scalar,
    hi: Scalar,
    q: Point,
)
    requires
        exact_inside(ar, pos, center, radius, axis, lo, hi),
        num(radius) > 0real,
        ({
            let (axial, d0, d1) = decomposed(ar, pos, center, axis);
            axial.at_least(lo) && hi.at_least(axial) && radius.at_least(
                root(ar, squares(ar, d0, d1)),
            )
        }),
        on_cylinder(q, num(radius), num(lo), num(hi)),
    ensures
        ({
            let r = closest_on_cylinder(ar, pos, center, radius, axis, lo, hi);
            let n = turned(r.normal, axis);
            let at = seen(r.point, center, axis);
            let (p, t) = (seen(pos, center, axis), num(r.distance));
            &&& length_squared(n) == 1real
            &&& p.x == at.x + t * n.x && p.y == at.y + t * n.y && p.z == at.z + t * n.z
            &&& on_cylinder(at, num(radius), num(lo), num(hi))
            &&& apart(p, q) >= t * t
            &&& t <= 0real
        }),
{
    lemma_constants();
    let (axial, e0, e1): (Scalar, Scalar, Scalar) = decomposed(ar, pos, center, axis);
    let radial_word: Scalar = root(ar, squares(ar, e0, e1));
    let (radial, radius_num): (real, real) = (num(radial_word), num(radius));
    let p: Point = seen(pos, center, axis);
    let (n0, n1): (real, real) = direction(ar, pos, center, axis);
    let r: SurfaceResult = closest_on_cylinder(ar, pos, center, radius, axis, lo, hi);
    let t: real = num(r.distance);
    lemma_candidates(ar, pos, center, radius, axis, lo, hi);
    lemma_order(axial, lo);
    lemma_order(hi, axial);
    lemma_order(radius, radial_word);
    let d_lo: Scalar = difference(ar, axial, lo);
    let d_hi: Scalar = difference(ar, hi, axial);
    let d_curved_signed: Scalar = difference(ar, radius, radial_word);
    let d_curved: Scalar = d_curved_signed.absolute();
    lemma_absolute(d_curved_signed);
    lemma_order(d_lo, d_curved);
    lemma_order(d_hi, d_curved);
    lemma_order(d_hi, d_lo);
    lemma_negated(d_lo);
    lemma_negated(d_hi);
    let (a, b, c): (real, real, real) = (num(d_lo), num(d_hi), num(d_curved));
    assert(a == p.x - num(lo) && b == num(hi) - p.x && c == radius_num - radial);
    assert(0real * 0real == 0real && 1real * 1real == 1real && (-1real) * (-1real) == 1real);
    assert(t * 0real == 0real && t * 1real == t && t * (-1real) == -t);
    // The result.
    lemma_mul_order(n0, radial, radial);
    lemma_mul_order(n1, radial, radial);
    lemma_mul_order(n0, radius_num, radius_num);
    lemma_mul_order(n1, radius_num, radius_num);
    lemma_mul_add(n0, radial, -radius_num);
    lemma_mul_add(n1, radial, -radius_num);
    assert((-radius_num) * n0 == -(radius_num * n0)) by (nonlinear_arith);
    assert((-radius_num) * n1 == -(radius_num * n1)) by (nonlinear_arith);
    let n: Point = Point { x: 0real, y: n0, z: n1 };
    let zero: Point = Point { x: 0real, y: 0real, z: 0real };
    lemma_apart_along(radius_num, n, zero);
    assert(n0 * 0real == 0real && n1 * 0real == 0real && radius_num * 0real == 0real);
    assert((radius_num * radius_num) * 1real == radius_num * radius_num);
    lemma_square_order(radial, radius_num);
    // The least distance bounds all others.
    let (u, v): (real, real) = (p.x - q.x, radial - radius_num);
    lemma_natural_square(p.x - q.x);
    lemma_natural_square(p.y - q.y);
    lemma_natural_square(p.z - q.z);
    let least: real = -t;
    assert(least <= a && least <= b && least <= c && least >= 0real);
    lemma_square_order(least, a);
    lemma_square_order(least, b);
    lemma_square_order(least, c);
    assert((-least) * (-least) == least * least) by (nonlinear_arith);
    assert((-c) * (-c) == c * c) by (nonlinear_arith);
    assert((-b) * (-b) == b * b) by (nonlinear_arith);
    if across(q) == radius_num * radius_num {
        lemma_curved_bound(p, q, n0, n1, radial, radius_num);
        assert(v == -c);
    } else {
        assert(u == a || u == -b);
    }
}

/// The region contains a position exactly where the closest point is sought from
/// inside.
pub proof fn cylinder_sides_agree<F: Fn(Op, Scalar, Scalar, Scalar) -> Scalar>(
    ar: F,
    pos: Vec3,
    center: [Scalar; 2],
    radius: Scalar,
    axis: Axis,
    lo: Scalar,
    hi: Scalar,
)
    requires
        exact_inside(ar, pos, center, radius, axis, lo, hi),
        exact_product(ar, radius, radius),
        num(radius) > 0real,
    ensures
        ({
            let (axial, d0, d1) = decomposed(ar, pos, center, axis);
            inside(ar, Region::Cylinder { center, radius, axis, lo, hi }, pos) <==> axial.at_least(lo)
                && hi.at_least(axial) && radius.at_least(root(ar, squares(ar, d0, d1)))
        }),
{
    let (axial, d0, d1): (Scalar, Scalar, Scalar) = decomposed(ar, pos, center, axis);
    let radial: Scalar = root(ar, squares(ar, d0, d1));
    lemma_order(radius, radial);
    lemma_order(product(ar, radius, radius), squares(ar, d0, d1));
    lemma_square_order(num(radial), num(radius));
}

/// The square of how far a number lies outside a range.
pub open spec fn excess(a: real, lo: real, hi: real) -> real {
    if a < lo {
        (lo - a) * (lo - a)
    } else if a > hi {
        (a - hi) * (a - hi)
    } else {
        0real
    }
}

/// The square of the distance of a point from the solid cylinder, by its coordinate
/// along the axis and its distance from the centre line.
pub open spec fn solid_distance(a: real, radial: real, radius: real, lo: real, hi: real) -> real {
    excess(a, lo, hi) + if radial > radius {
        (radial - radius) * (radial - radius)
    } else {
        0real
    }
}

/// The point lies in the cylinder or on its surface.
pub open spec fn in_cylinder(q: Point, radius: real, lo: real, hi: real) -> bool {
    lo <= q.x <= hi && across(q) <= radius * radius
}

pub proof fn lemma_flipped_square(a: real, b: real)
    ensures
        (a - b) * (a - b) == (b - a) * (b - a),
{
    lemma_square_of_difference(a, b);
}

/// No point of the solid cylinder is closer than its distance.
proof fn lemma_solid_bound(
    p: Point,
    q: Point,
    n0: real,
    n1: real,
    radial: real,
    radius: real,
    lo: real,
    hi: real,
)
    requires
        radial >= 0real,
        radius > 0real,
        lo <= hi,
        n0 * n0 + n1 * n1 == 1real,
        p.y == radial * n0,
        p.z == radial * n1,
        in_cylinder(q, radius, lo, hi),
    ensures
        apart(p, q) >= solid_distance(p.x, radial, radius, lo, hi),
{
    let (u, v, w): (real, real, real) = (p.x - q.x, p.y - q.y, p.z - q.z);
    lemma_natural_square(u);
    lemma_natural_square(v);
    lemma_natural_square(w);
    if p.x < lo {
        lemma_square_order(lo - p.x, q.x - p.x);
        lemma_flipped_square(q.x, p.x);
    } else if p.x > hi {
        lemma_square_order(p.x - hi, u);
    }
    assert(u * u >= excess(p.x, lo, hi));
    if radial > radius {
        let n: Point = Point { x: 0real, y: n0, z: n1 };
        let flat: Point = Point { x: 0real, y: q.y, z: q.z };
        let s: real = dot(n, flat);
        let size: real = across(q);
        assert(0real * 0real == 0real && radial * 0real == 0real && radius * 0real == 0real);
        assert(s * 0real == 0real);
        lemma_apart_along(radius, n, flat);
        lemma_natural_square(radius * n0 - q.y);
        lemma_natural_square(radius * n1 - q.z);
        assert((radius * radius) * 1real == radius * radius);
        assert(radius * s <= radius * radius);
        lemma_drop_factor(radius, s, radius);
        lemma_apart_along(s, n, flat);
        lemma_natural_square(s * n0 - q.y);
        lemma_natural_square(s * n1 - q.z);
        assert((s * s) * 1real == s * s);
        assert(size >= s * s);
        lemma_apart_along(radial, n, flat);
        assert((radial * radial) * 1real == radial * radial);
        lemma_square_of_difference(radial, s);
        lemma_square_order(radial - radius, radial - s);
    }
}

/// The candidate that is chosen is as far away as the solid cylinder. `curved`,
/// `low` and `high` are the numbers by which it is chosen.
proof fn lemma_choice(
    a: real,
    lo: real,
    hi: real,
    radial: real,
    radius: real,
    curved: real,
    low: real,
    high: real,
    best: int,
)
    requires
        lo <= hi,
        a < lo || a > hi || radial > radius,
        curved >= 0real && low >= 0real && high >= 0real,
        ({
            let cap = if radius >= radial {
                radial
            } else {
                radius
            };
            let side = (radial - radius) * (radial - radius);
            let rest = (radial - cap) * (radial - cap);
            &&& lo <= a <= hi ==> curved * curved == side
            &&& a < lo || a > hi ==> curved * curved == side + excess(a, lo, hi)
            &&& a < lo ==> low == lo - a
            &&& a >= lo ==> low * low == (a - lo) * (a - lo) + rest
            &&& a > hi ==> high == a - hi
            &&& a <= hi ==> high * high == (a - hi) * (a - hi) + rest
        }),
        best == if !(low < curved) {
            if high < curved {
                2int
            } else {
                0
            }
        } else {
            if high < low {
                2int
            } else {
                1
            }
        },
    ensures
        ({
            let cap = if radius >= radial {
                radial
            } else {
                radius
            };
            let h = if best == 0 {
                if a < lo {
                    lo
                } else if a > hi {
                    hi
                } else {
                    a
                }
            } else if best == 1 {
                lo
            } else {
                hi
            };
            let k = if best == 0 {
                radius
            } else {
                cap
            };
            (a - h) * (a - h) + (radial - k) * (radial - k) == solid_distance(
                a,
                radial,
                radius,
                lo,
                hi,
            )
        }),
{
    let cap: real = if radius >= radial {
        radial
    } else {
        radius
    };
    let side: real = (radial - radius) * (radial - radius);
    let rest: real = (radial - cap) * (radial - cap);
    assert(0real * 0real == 0real);
    lemma_natural_square(radial - radius);
    lemma_natural_square(radial - cap);
    lemma_natural_square(a - lo);
    lemma_natural_square(a - hi);
    lemma_flipped_square(a, lo);
    lemma_flipped_square(a, hi);
    lemma_square_order(curved, low);
    lemma_square_order(low, curved);
    lemma_square_order(curved, high);
    lemma_square_order(high, curved);
    lemma_square_order(high, low);
    lemma_square_order(low, high);
    if lo <= a <= hi {
        assert(low * low >= side && high * high >= side);
        assert(best == 0);
    } else if a < lo {
        assert(low * low == excess(a, lo, hi));
        lemma_square_order(lo - a, hi - a);
        assert(high * high >= low * low);
        assert(curved * curved >= low * low);
    } else {
        assert(high * high == excess(a, lo, hi));
        lemma_square_order(a - hi, a - lo);
        assert(low * low >= high * high);
        assert(curved * curved >= high * high);
        if best == 1 {
            assert(low == high);
            assert((a - lo) * (a - lo) + rest == (a - hi) * (a - hi));
        }
    }
}

/// The distance of two positions is computed without rounding.
pub open spec fn exact_distance<F: Fn(Op, Scalar, Scalar, Scalar) -> Scalar>(
    ar: F,
    pos: Vec3,
    at: Vec3,
) -> bool {
    let d = minus_of(ar, pos, at);
    &&& exact_norm(ar, d)
    &&& exact_root(ar, dot_of(ar, d, d))
    &&& forall|k: int| 0 <= k < 3 ==> exact_difference(ar, #[trigger] pos[k], at[k])
}

/// The distance is that of the two points, however they are seen.
pub proof fn lemma_distance<F: Fn(Op, Scalar, Scalar, Scalar) -> Scalar>(
    ar: F,
    pos: Vec3,
    at: Vec3,
    center: [Scalar; 2],
    axis: Axis,
)
    requires
        exact_distance(ar, pos, at),
    ensures
        ({
            let t = norm_of(ar, minus_of(ar, pos, at));
            &&& !t.nan()
            &&& num(t) >= 0real
            &&& num(t) * num(t) == apart(seen(pos, center, axis), seen(at, center, axis))
        }),
        apart(point_of(pos), point_of(at)) == apart(
            seen(pos, center, axis),
            seen(at, center, axis),
        ),
{
    assert(exact_difference(ar, pos[0], at[0]) && exact_difference(ar, pos[1], at[1])
        && exact_difference(ar, pos[2], at[2]));
}

/// The square of the distance of two points in the same direction from the centre
/// line.
pub proof fn lemma_apart_radial(a: real, h: real, radial: real, k: real, n0: real, n1: real)
    requires
        n0 * n0 + n1 * n1 == 1real,
    ensures
        apart(
            Point { x: a, y: radial * n0, z: radial * n1 },
            Point { x: h, y: n0 * k, z: n1 * k },
        ) == (a - h) * (a - h) + (radial - k) * (radial - k),
{
    let t: real = radial - k;
    lemma_mul_add(n0, radial, -k);
    lemma_mul_add(n1, radial, -k);
    lemma_mul_order(n0, k, k);
    lemma_mul_order(n1, k, k);
    assert((-k) * n0 == -(k * n0)) by (nonlinear_arith);
    assert((-k) * n1 == -(k * n1)) by (nonlinear_arith);
    let n: Point = Point { x: 0real, y: n0, z: n1 };
    let zero: Point = Point { x: 0real, y: 0real, z: 0real };
    lemma_apart_along(t, n, zero);
    assert(n0 * 0real == 0real && n1 * 0real == 0real && t * 0real == 0real);
    assert(0real * 0real == 0real);
    assert((t * t) * 1real == t * t);
}

/// The closest point of a cylinder from outside is computed without rounding.
pub open spec fn exact_beyond<F: Fn(Op, Scalar, Scalar, Scalar) -> Scalar>(
    ar: F,
    pos: Vec3,
    center: [Scalar; 2],
    radius: Scalar,
    axis: Axis,
    lo: Scalar,
    hi: Scalar,
) -> bool {
    let (axial, d0, d1) = decomposed(ar, pos, center, axis);
    let radial = root(ar, squares(ar, d0, d1));
    let dr = difference(ar, radial, radius);
    let da = beyond(ar, axial, lo, hi);
    &&& exact_inside(ar, pos, center, radius, axis, lo, hi)
    &&& exact_difference(ar, lo, axial) && exact_difference(ar, axial, hi)
    &&& if radial.below(tiny()) {
        exact_squares(ar, radius, da) && exact_root(ar, squares(ar, radius, da))
    } else {
        &&& exact_squares(ar, dr, da)
        &&& exact_root(ar, squares(ar, dr, da))
        &&& exact_product(ar, root(ar, squares(ar, dr, da)), Scalar::one())
    }
    &&& exact_distance(ar, pos, cap_point(ar, pos, center, radius, axis, lo))
    &&& exact_distance(ar, pos, cap_point(ar, pos, center, radius, axis, hi))
    &&& exact_outside(ar, pos, closest_on_cylinder(ar, pos, center, radius, axis, lo, hi).point)
}

/// The first of the least of three.
pub proof fn lemma_least_of_three(s: Seq<Scalar>)
    requires
        s.len() == 3,
        !s[0].nan() && !s[1].nan() && !s[2].nan(),
    ensures
        least_at(s, 3) == if !(num(s[1]) < num(s[0])) {
            if num(s[2]) < num(s[0]) {
                2int
            } else {
                0
            }
        } else {
            if num(s[2]) < num(s[1]) {
                2int
            } else {
                1
            }
        },
{
    assert(least_at(s, 1) == 0);
    assert(least_at(s, 2) == if s[1].below(s[0]) {
        1int
    } else {
        0
    });
    lemma_order(s[1], s[0]);
    lemma_order(s[2], s[0]);
    lemma_order(s[2], s[1]);
}

/// Where the candidates lie, seen from the centre line.
pub proof fn lemma_candidates<F: Fn(Op, Scalar, Scalar, Scalar) -> Scalar>(
    ar: F,
    pos: Vec3,
    center: [Scalar; 2],
    radius: Scalar,
    axis: Axis,
    lo: Scalar,
    hi: Scalar,
)
    requires
        exact_inside(ar, pos, center, radius, axis, lo, hi),
        num(radius) > 0real,
    ensures
        ({
            let (axial, d0, d1) = decomposed(ar, pos, center, axis);
            let radial = num(root(ar, squares(ar, d0, d1)));
            let p = seen(pos, center, axis);
            let (n0, n1) = direction(ar, pos, center, axis);
            let cap = if num(radius) >= radial {
                radial
            } else {
                num(radius)
            };
            let h = if p.x < num(lo) {
                num(lo)
            } else if p.x > num(hi) {
                num(hi)
            } else {
                p.x
            };
            let (curved_point, curved_normal, _) = curved_candidate(
                ar,
                pos,
                center,
                radius,
                axis,
                lo,
                hi,
            );
            &&& turned(curved_normal, axis) == Point { x: 0real, y: n0, z: n1 }
            &&& num(axial) == p.x
            &&& radial >= 0real
            &&& n0 * n0 + n1 * n1 == 1real
            &&& p == Point { x: p.x, y: radial * n0, z: radial * n1 }
            &&& seen(curved_point, center, axis) == Point {
                x: h,
                y: n0 * num(radius),
                z: n1 * num(radius),
            }
            &&& seen(cap_point(ar, pos, center, radius, axis, lo), center, axis) == Point {
                x: num(lo),
                y: n0 * cap,
                z: n1 * cap,
            }
            &&& seen(cap_point(ar, pos, center, radius, axis, hi), center, axis) == Point {
                x: num(hi),
                y: n0 * cap,
                z: n1 * cap,
            }
        }),
{
    lemma_constants();
    let (axial, d0, d1): (Scalar, Scalar, Scalar) = decomposed(ar, pos, center, axis);
    let word: Scalar = root(ar, squares(ar, d0, d1));
    let inv: real = num(quotient(ar, Scalar::one(), word));
    let p: Point = seen(pos, center, axis);
    lemma_order(axial, lo);
    lemma_order(hi, axial);
    lemma_order(radius, word);
    if word.below(tiny()) {
        let r: real = num(radius);
        assert(0real * 0real == 0real && 1real * 1real == 1real);
        lemma_no_squares(p.y, p.z);
        assert(0real * 1real == 0real && 1real * r == r && 0real * r == 0real);
        assert(1real * 0real == 0real);
    } else {
        lemma_direction(p.y, p.z, num(word), inv);
    }
}

/// The number that stands for the curved surface, squared.
pub proof fn lemma_curved_number<F: Fn(Op, Scalar, Scalar, Scalar) -> Scalar>(
    ar: F,
    pos: Vec3,
    center: [Scalar; 2],
    radius: Scalar,
    axis: Axis,
    lo: Scalar,
    hi: Scalar,
)
    requires
        exact_beyond(ar, pos, center, radius, axis, lo, hi),
        num(lo) <= num(hi),
    ensures
        ({
            let (axial, d0, d1) = decomposed(ar, pos, center, axis);
            let a = num(axial);
            let radial = num(root(ar, squares(ar, d0, d1)));
            let side = (radial - num(radius)) * (radial - num(radius));
            let c = curved_candidate(ar, pos, center, radius, axis, lo, hi).2.absolute();
            &&& !c.nan()
            &&& num(c) >= 0real
            &&& num(lo) <= a <= num(hi) ==> num(c) * num(c) == side
            &&& a < num(lo) || a > num(hi) ==> num(c) * num(c) == side + excess(
                a,
                num(lo),
                num(hi),
            )
        }),
{
    lemma_constants();
    let (axial, d0, d1): (Scalar, Scalar, Scalar) = decomposed(ar, pos, center, axis);
    let word: Scalar = root(ar, squares(ar, d0, d1));
    let dr: Scalar = difference(ar, word, radius);
    let da: Scalar = beyond(ar, axial, lo, hi);
    let away: Scalar = root(ar, squares(ar, dr, da));
    let x: real = num(dr);
    lemma_order(axial, lo);
    lemma_order(hi, axial);
    lemma_absolute(dr);
    lemma_absolute(product(ar, away, Scalar::one()));
    let r: real = num(radius);
    let straight: Scalar = root(ar, squares(ar, radius, da));
    lemma_absolute(straight);
    lemma_negated(radius);
    lemma_absolute(radius.negated());
    assert((-r) * (-r) == r * r) by (nonlinear_arith);
    assert(0real - r == -r);
    lemma_sign(da);
    assert(num(away) * 1real == num(away));
    assert((-x) * (-x) == x * x) by (nonlinear_arith);
    if num(axial) < num(lo) || num(axial) > num(hi) {
        assert(num(da) > 0real);
        assert(da.value() != 0) by {
            lemma_nothing(da);
        }
        assert(da.magnitude() != 0);
    }
}

/// Nothing is zero.
proof fn lemma_nothing(x: Scalar)
    ensures
        x.value() == 0 ==> num(x) == 0real,
        x.magnitude() == 0 ==> x.value() == 0,
{
    lemma_zero_over_unit();
}

/// From outside the result looks at a point between the ends and within the radius
/// that is as close as the solid cylinder: the point, the normal of last resort, its
/// place along the axis and its distance from the centre line.
#[verifier::rlimit(60)]
pub proof fn lemma_outside_choice<F: Fn(Op, Scalar, Scalar, Scalar) -> Scalar>(
    ar: F,
    pos: Vec3,
    center: [Scalar; 2],
    radius: Scalar,
    axis: Axis,
    lo: Scalar,
    hi: Scalar,
) -> (c: (Vec3, Vec3, real, real))
    requires
        exact_beyond(ar, pos, center, radius, axis, lo, hi),
        num(radius) > 0real,
        num(lo) <= num(hi),
        ({
            let (axial, d0, d1) = decomposed(ar, pos, center, axis);
            !(axial.at_least(lo) && hi.at_least(axial) && radius.at_least(
                root(ar, squares(ar, d0, d1)),
            ))
        }),
    ensures
        ({
            let (axial, d0, d1) = decomposed(ar, pos, center, axis);
            let radial = num(root(ar, squares(ar, d0, d1)));
            let p = seen(pos, center, axis);
            let (n0, n1) = direction(ar, pos, center, axis);
            let (at, fallback, h, k) = c;
            &&& closest_on_cylinder(ar, pos, center, radius, axis, lo, hi) == from_outside(
                ar,
                pos,
                at,
                fallback,
            )
            &&& seen(at, center, axis) == Point { x: h, y: n0 * k, z: n1 * k }
            &&& on_cylinder(seen(at, center, axis), num(radius), num(lo), num(hi))
            &&& num(lo) <= h <= num(hi)
            &&& k <= num(radius)
            &&& (p.x - h) * (p.x - h) + (radial - k) * (radial - k) == solid_distance(
                p.x,
                radial,
                num(radius),
                num(lo),
                num(hi),
            )
            &&& apart(p, seen(at, center, axis)) == (p.x - h) * (p.x - h) + (radial - k) * (radial
                - k)
        }),
{
    let (axial, e0, e1): (Scalar, Scalar, Scalar) = decomposed(ar, pos, center, axis);
    let radial_word: Scalar = root(ar, squares(ar, e0, e1));
    let (radial, size): (real, real) = (num(radial_word), num(radius));
    let p: Point = seen(pos, center, axis);
    let (n0, n1): (real, real) = direction(ar, pos, center, axis);
    let r: SurfaceResult = closest_on_cylinder(ar, pos, center, radius, axis, lo, hi);
    let (curved_point, curved_normal, curved_dist): (Vec3, Vec3, Scalar) = curved_candidate(
        ar,
        pos,
        center,
        radius,
        axis,
        lo,
        hi,
    );
    let lo_point: Vec3 = cap_point(ar, pos, center, radius, axis, lo);
    let hi_point: Vec3 = cap_point(ar, pos, center, radius, axis, hi);
    let cap: real = if size >= radial {
        radial
    } else {
        size
    };
    let a: real = p.x;
    let h: real = if a < num(lo) {
        num(lo)
    } else if a > num(hi) {
        num(hi)
    } else {
        a
    };
    lemma_candidates(ar, pos, center, radius, axis, lo, hi);
    lemma_curved_number(ar, pos, center, radius, axis, lo, hi);
    lemma_order(axial, lo);
    lemma_order(hi, axial);
    lemma_order(radius, radial_word);
    lemma_apart_radial(a, h, radial, size, n0, n1);
    lemma_apart_radial(a, num(lo), radial, cap, n0, n1);
    lemma_apart_radial(a, num(hi), radial, cap, n0, n1);
    lemma_distance(ar, pos, lo_point, center, axis);
    lemma_distance(ar, pos, hi_point, center, axis);
    let lo_dist: Scalar = if axial.below(lo) {
        difference(ar, lo, axial)
    } else {
        norm_of(ar, minus_of(ar, pos, lo_point))
    };
    let hi_dist: Scalar = if hi.below(axial) {
        difference(ar, axial, hi)
    } else {
        norm_of(ar, minus_of(ar, pos, hi_point))
    };
    let chosen: Seq<Scalar> = seq![curved_dist.absolute(), lo_dist, hi_dist];
    lemma_least_of_three(chosen);
    let best: int = least_at(chosen, 3);
    lemma_choice(
        a,
        num(lo),
        num(hi),
        radial,
        size,
        num(chosen[0]),
        num(lo_dist),
        num(hi_dist),
        best,
    );
    let (at, fallback): (Vec3, Vec3) = if best == 0 {
        (curved_point, curved_normal)
    } else if best == 1 {
        (lo_point, along_axis(Scalar::minus_one(), Scalar::zero(), Scalar::zero(), axis))
    } else {
        (hi_point, along_axis(Scalar::one(), Scalar::zero(), Scalar::zero(), axis))
    };
    assert(r == from_outside(ar, pos, at, fallback));
    let (place, away): (real, real) = if best == 0 {
        (h, size)
    } else if best == 1 {
        (num(lo), cap)
    } else {
        (num(hi), cap)
    };
    lemma_radial_square(n0, n1, away);
    lemma_square_order(cap, size);
    (at, fallback, place, away)
}

/// The square of a multiple of a direction.
pub proof fn lemma_radial_square(n0: real, n1: real, k: real)
    requires
        n0 * n0 + n1 * n1 == 1real,
    ensures
        (n0 * k) * (n0 * k) + (n1 * k) * (n1 * k) == k * k,
{
    assert((n0 * k) * (n0 * k) == (n0 * n0) * (k * k)) by (nonlinear_arith);
    assert((n1 * k) * (n1 * k) == (n1 * n1) * (k * k)) by (nonlinear_arith);
    lemma_mul_add(k * k, n0 * n0, n1 * n1);
    assert(1real * (k * k) == k * k);
}

/// The closest point of a cylinder from outside: the normal is a unit vector, the
/// position is the point plus the distance along the normal, the point lies on the
/// surface and is no farther than any point of the cylinder, and the distance
/// is positive.
pub proof fn cylinder_point_is_closest_outside<F: Fn(Op, Scalar, Scalar, Scalar) -> Scalar>(
    ar: F,
    pos: Vec3,
    center: [Scalar; 2],
    radius: Scalar,
    axis: Axis,
    lo: Scalar,
    hi: Scalar,
    q: Point,
)
    requires
        exact_beyond(ar, pos, center, radius, axis, lo, hi),
        num(radius) > 0real,
        num(lo) <= num(hi),
        ({
            let (axial, d0, d1) = decomposed(ar, pos, center, axis);
            !(axial.at_least(lo) && hi.at_least(axial) && radius.at_least(
                root(ar, squares(ar, d0, d1)),
            ))
        }),
        in_cylinder(q, num(radius), num(lo), num(hi)),
    ensures
        ({
            let r = closest_on_cylinder(ar, pos, center, radius, axis, lo, hi);
            let n = point_of(r.normal);
            let at = point_of(r.point);
            let (p, t) = (point_of(pos), num(r.distance));
            &&& length_squared(n) == 1real
            &&& p.x == at.x + t * n.x && p.y == at.y + t * n.y && p.z == at.z + t * n.z
            &&& on_cylinder(seen(r.point, center, axis), num(radius), num(lo), num(hi))
            &&& apart(seen(pos, center, axis), q) >= t * t
            &&& t > 0real
        }),
{
    let (at, fallback, h, k): (Vec3, Vec3, real, real) = lemma_outside_choice(
        ar,
        pos,
        center,
        radius,
        axis,
        lo,
        hi,
    );
    let (axial, e0, e1): (Scalar, Scalar, Scalar) = decomposed(ar, pos, center, axis);
    let word: Scalar = root(ar, squares(ar, e0, e1));
    let (n0, n1): (real, real) = direction(ar, pos, center, axis);
    let p: Point = seen(pos, center, axis);
    outside_result_is_metric(ar, pos, at, fallback);
    lemma_seen_apart(pos, at, center, axis);
    lemma_candidates(ar, pos, center, radius, axis, lo, hi);
    lemma_solid_bound(
        p,
        q,
        n0,
        n1,
        num(word),
        num(radius),
        num(lo),
        num(hi),
    );
}

pub proof fn lemma_seen_apart(a: Vec3, b: Vec3, center: [Scalar; 2], axis: Axis)
    ensures
        apart(point_of(a), point_of(b)) == apart(seen(a, center, axis), seen(b, center, axis)),
{
}

/// The absolute value.
pub proof fn lemma_absolute(x: Scalar)
    ensures
        !x.nan() ==> !x.absolute().nan(),
        num(x) >= 0real ==> num(x.absolute()) == num(x),
        num(x) < 0real ==> num(x.absolute()) == -num(x),
{
    lemma_negated(x);
    let y: Scalar = x.absolute();
    assert(y.magnitude() == x.magnitude());
    assert(y.units() == x.units());
    lemma_sign(x);
}

} // verus!

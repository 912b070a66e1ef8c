//! A cone whose radii are equal is a cylinder, where no operation rounds.

use crate::cylinder::{
    direction, exact_beyond, exact_distance, exact_inside, excess, lemma_absolute, lemma_apart_radial,
    lemma_candidates, lemma_distance, lemma_flipped_square, lemma_least_of_three,
    lemma_outside_choice, seen, solid_distance, turned,
};
use crate::drawn::{exact_squares, lemma_natural_square};
use crate::exact::{
    exact_difference, exact_product, exact_quotient, exact_root, exact_sum, lemma_constants,
    lemma_divided, lemma_mul_add, lemma_mul_order, lemma_negated, lemma_order, num,
};
use crate::geometry::{
    exact_outside, lemma_drop_factor, lemma_square_order, outside_result_is_metric, point_of, Point,
};
use crate::region::{
    along_axis, cap_point, closest_on_cone, closest_on_cylinder, cone_cap, cone_radius_between,
    curved_candidate, decomposed, from_outside, least_at, radial_direction, slanted_candidate,
    squares, tiny, Axis, SurfaceResult,
};
use crate::scalar::{difference, product, quotient, root, sum, Op, Scalar, Vec3};
use crate::vec3::{minus_of, norm_of};
use vstd::prelude::*;

verus! {

/// The place along the segment between the ends that is closest.
pub open spec fn place_along<F: Fn(Op, Scalar, Scalar, Scalar) -> Scalar>(
    ar: F,
    axial: Scalar,
    radial: Scalar,
    rad: Scalar,
    lo: Scalar,
    hi: Scalar,
) -> Scalar {
    let da = difference(ar, hi, lo);
    let dr = difference(ar, rad, rad);
    quotient(
        ar,
        sum(
            ar,
            product(ar, difference(ar, axial, lo), da),
            product(ar, difference(ar, radial, rad), dr),
        ),
        squares(ar, da, dr),
    )
}

/// The slanted surface of a cone of equal radii is computed without rounding.
pub open spec fn exact_slant<F: Fn(Op, Scalar, Scalar, Scalar) -> Scalar>(
    ar: F,
    pos: Vec3,
    center: [Scalar; 2],
    axis: Axis,
    rad: Scalar,
    lo: Scalar,
    hi: Scalar,
) -> bool {
    let (axial, d0, d1) = decomposed(ar, pos, center, axis);
    let radial = root(ar, squares(ar, d0, d1));
    let da = difference(ar, hi, lo);
    let dr = difference(ar, rad, rad);
    let u = difference(ar, axial, lo);
    let v = difference(ar, radial, rad);
    let far = place_along(ar, axial, radial, rad, lo, hi);
    let t = far.clamped(Scalar::zero(), Scalar::one());
    let proj_axial = sum(ar, lo, product(ar, t, da));
    let proj_radial = sum(ar, rad, product(ar, t, dr));
    let len = root(ar, squares(ar, dr.negated(), da));
    let (n0, n1) = radial_direction(ar, d0, d1);
    let nr = quotient(ar, da, len);
    &&& exact_difference(ar, hi, lo) && num(da) > 0real
    &&& exact_difference(ar, rad, rad)
    &&& exact_squares(ar, da, dr) && !squares(ar, da, dr).below(tiny())
    &&& exact_difference(ar, axial, lo) && exact_difference(ar, radial, rad)
    &&& exact_product(ar, u, da) && exact_product(ar, v, dr)
    &&& exact_sum(ar, product(ar, u, da), product(ar, v, dr))
    &&& exact_quotient(
        ar,
        sum(ar, product(ar, u, da), product(ar, v, dr)),
        squares(ar, da, dr),
    )
    &&& exact_product(ar, t, da) && exact_sum(ar, lo, product(ar, t, da))
    &&& exact_product(ar, t, dr) && exact_sum(ar, rad, product(ar, t, dr))
    &&& exact_squares(ar, dr.negated(), da) && exact_root(ar, squares(ar, dr.negated(), da))
    &&& tiny().below(len)
    &&& exact_quotient(ar, dr.negated(), len) && exact_quotient(ar, da, len)
    &&& !radial.below(tiny()) ==> exact_quotient(ar, d0, radial) && exact_quotient(ar, d1, radial)
    &&& exact_product(ar, n0, proj_radial) && exact_product(ar, n1, proj_radial)
    &&& exact_sum(ar, center[0], product(ar, n0, proj_radial))
    &&& exact_sum(ar, center[1], product(ar, n1, proj_radial))
    &&& exact_product(ar, nr, n0) && exact_product(ar, nr, n1)
    &&& exact_difference(ar, axial, proj_axial) && exact_difference(ar, radial, proj_radial)
    &&& exact_squares(
        ar,
        difference(ar, axial, proj_axial),
        difference(ar, radial, proj_radial),
    )
    &&& exact_root(
        ar,
        squares(ar, difference(ar, axial, proj_axial), difference(ar, radial, proj_radial)),
    )
}

/// `x` brought into the range.
pub open spec fn brought(x: real, lo: real, hi: real) -> real {
    if x < lo {
        lo
    } else if x > hi {
        hi
    } else {
        x
    }
}

/// The place along the segment, times its length.
proof fn lemma_place(a: real, lo: real, length: real, t0: real, t: real)
    requires
        length > 0real,
        t0 == ((a - lo) * length) / (length * length),
        t == brought(t0, 0real, 1real),
    ensures
        lo + t * length == brought(a, lo, lo + length),
{
    let u: real = a - lo;
    assert(length * length > 0real) by (nonlinear_arith)
        requires
            length > 0real,
    ;
    lemma_divided(u * length, length * length);
    // t0 * length is u.
    lemma_mul_order(t0, length, length);
    assert((t0 * length) * length == u * length);
    assert((t0 * length - u) * length == 0real) by {
        lemma_mul_add(length, t0 * length, -u);
        assert((-u) * length == -(u * length)) by (nonlinear_arith);
    }
    assert(t0 * length == u) by {
        let x: real = t0 * length - u;
        assert(x * length == 0real ==> x == 0real) by (nonlinear_arith)
            requires
                length > 0real,
        ;
    }
    assert(0real * length == 0real && 1real * length == length);
    if t0 < 0real {
        assert(t0 * length < 0real) by (nonlinear_arith)
            requires
                t0 < 0real,
                length > 0real,
        ;
    } else if t0 > 1real {
        assert(t0 * length > length) by (nonlinear_arith)
            requires
                t0 > 1real,
                length > 0real,
        ;
    } else {
        assert(0real <= t0 * length <= length) by (nonlinear_arith)
            requires
                0real <= t0 <= 1real,
                length > 0real,
        ;
    }
}

/// What a number is brought to, as a number.
proof fn lemma_clamped(x: Scalar, lo: Scalar, hi: Scalar)
    requires
        !x.nan() && !lo.nan() && !hi.nan(),
    ensures
        !x.clamped(lo, hi).nan(),
        num(x.clamped(lo, hi)) == brought(num(x), num(lo), num(hi)),
{
    lemma_order(x, lo);
    lemma_order(hi, x);
}

/// The slanted surface of a cone of equal radii is the curved surface of the
/// cylinder.
proof fn lemma_slant<F: Fn(Op, Scalar, Scalar, Scalar) -> Scalar>(
    ar: F,
    pos: Vec3,
    center: [Scalar; 2],
    axis: Axis,
    rad: Scalar,
    lo: Scalar,
    hi: Scalar,
)
    requires
        exact_inside(ar, pos, center, rad, axis, lo, hi),
        exact_slant(ar, pos, center, axis, rad, lo, hi),
        num(rad) > 0real,
    ensures
        ({
            let (axial, d0, d1) = decomposed(ar, pos, center, axis);
            let radial = num(root(ar, squares(ar, d0, d1)));
            let p = seen(pos, center, axis);
            let (n0, n1) = direction(ar, pos, center, axis);
            let h = brought(p.x, num(lo), num(hi));
            let (at, normal, dist) = slanted_candidate(ar, pos, center, axis, rad, rad, lo, hi);
            &&& num(radial_direction(ar, d0, d1).0) == n0
            &&& num(radial_direction(ar, d0, d1).1) == n1
            &&& seen(at, center, axis) == Point { x: h, y: n0 * num(rad), z: n1 * num(rad) }
            &&& turned(normal, axis) == Point { x: 0real, y: n0, z: n1 }
            &&& !dist.nan()
            &&& num(dist) >= 0real
            &&& num(dist) * num(dist) == (p.x - h) * (p.x - h) + (radial - num(rad)) * (radial - num(
                rad,
            ))
        }),
{
    lemma_constants();
    let (axial, d0, d1): (Scalar, Scalar, Scalar) = decomposed(ar, pos, center, axis);
    let word: Scalar = root(ar, squares(ar, d0, d1));
    let radial: real = num(word);
    let inv: real = num(quotient(ar, Scalar::one(), word));
    let p: Point = seen(pos, center, axis);
    let da: Scalar = difference(ar, hi, lo);
    let dr: Scalar = difference(ar, rad, rad);
    let length: real = num(da);
    let far: Scalar = place_along(ar, axial, word, rad, lo, hi);
    let t: Scalar = far.clamped(Scalar::zero(), Scalar::one());
    assert(num(dr) == 0real);
    lemma_negated(dr);
    assert(0real * 0real == 0real);
    let v: real = radial - num(rad);
    assert(v * 0real == 0real) by (nonlinear_arith);
    let place: real = num(t);
    assert(place * 0real == 0real) by (nonlinear_arith);
    lemma_clamped(far, Scalar::zero(), Scalar::one());
    lemma_place(p.x, num(lo), length, num(far), num(t));
    // The directions.
    let (e0, e1): (real, real) = direction(ar, pos, center, axis);
    if !word.below(tiny()) {
        lemma_over(p.y, radial, inv);
        lemma_over(p.z, radial, inv);
    }
    // The normal.
    let len: real = num(root(ar, squares(ar, dr.negated(), da)));
    assert((-0real) * (-0real) == 0real);
    lemma_square_order(len, length);
    lemma_square_order(length, len);
    assert(len == length);
    assert(length / length == 1real) by {
        lemma_divided(length, length);
        let x: real = length / length;
        assert(x * length == length ==> x == 1real) by (nonlinear_arith)
            requires
                length > 0real,
        ;
    }
    assert((-0real) / len == 0real) by (nonlinear_arith)
        requires
            len > 0real,
    ;
    assert(1real * e0 == e0 && 1real * e1 == e1);
}

/// Dividing is multiplying with the inverse.
proof fn lemma_over(x: real, d: real, inv: real)
    requires
        d != 0real,
        inv == 1real / d,
    ensures
        x / d == x * inv,
{
    assert(x / d == x * (1real / d)) by (nonlinear_arith)
        requires
            d != 0real,
    ;
}

/// The rest of a cone of equal radii is computed without rounding: its radius at the
/// position, and its flat ends.
pub open spec fn exact_cone<F: Fn(Op, Scalar, Scalar, Scalar) -> Scalar>(
    ar: F,
    pos: Vec3,
    center: [Scalar; 2],
    axis: Axis,
    rad: Scalar,
    lo: Scalar,
    hi: Scalar,
) -> bool {
    let (axial, d0, d1) = decomposed(ar, pos, center, axis);
    let radial = root(ar, squares(ar, d0, d1));
    let (n0, n1) = radial_direction(ar, d0, d1);
    let cap = rad.smaller(radial.greater(Scalar::zero())).smaller(rad);
    let da = difference(ar, hi, lo);
    let dr = difference(ar, rad, rad);
    let t = quotient(ar, difference(ar, axial, lo), da).clamped(Scalar::zero(), Scalar::one());
    &&& exact_slant(ar, pos, center, axis, rad, lo, hi)
    &&& !da.absolute().below(tiny())
    &&& exact_quotient(ar, difference(ar, axial, lo), da)
    &&& exact_product(ar, t, dr) && exact_sum(ar, rad, product(ar, t, dr))
    &&& exact_product(ar, n0, cap) && exact_sum(ar, center[0], product(ar, n0, cap))
    &&& exact_product(ar, n1, cap) && exact_sum(ar, center[1], product(ar, n1, cap))
}

/// The flat ends of a cone of equal radii are those of the cylinder, and its radius
/// is the same everywhere.
proof fn lemma_ends<F: Fn(Op, Scalar, Scalar, Scalar) -> Scalar>(
    ar: F,
    pos: Vec3,
    center: [Scalar; 2],
    axis: Axis,
    rad: Scalar,
    lo: Scalar,
    hi: Scalar,
)
    requires
        exact_inside(ar, pos, center, rad, axis, lo, hi),
        exact_cone(ar, pos, center, axis, rad, lo, hi),
        num(rad) > 0real,
    ensures
        ({
            let (axial, d0, d1) = decomposed(ar, pos, center, axis);
            let r = cone_radius_between(ar, axial, rad, rad, lo, hi);
            &&& !r.nan()
            &&& num(r) == num(rad)
            &&& seen(cone_cap(ar, pos, center, axis, rad, lo), center, axis) == seen(
                cap_point(ar, pos, center, rad, axis, lo),
                center,
                axis,
            )
            &&& seen(cone_cap(ar, pos, center, axis, rad, hi), center, axis) == seen(
                cap_point(ar, pos, center, rad, axis, hi),
                center,
                axis,
            )
        }),
{
    lemma_constants();
    let (axial, d0, d1): (Scalar, Scalar, Scalar) = decomposed(ar, pos, center, axis);
    let word: Scalar = root(ar, squares(ar, d0, d1));
    let da: Scalar = difference(ar, hi, lo);
    let t: real = num(
        quotient(ar, difference(ar, axial, lo), da).clamped(Scalar::zero(), Scalar::one()),
    );
    assert(t * 0real == 0real) by (nonlinear_arith);
    lemma_slant(ar, pos, center, axis, rad, lo, hi);
    lemma_candidates(ar, pos, center, rad, axis, lo, hi);
    lemma_order(word, Scalar::zero());
    lemma_order(word, rad);
    lemma_order(rad, word);
    lemma_order(rad, rad);
    lemma_absolute(da);
}

/// The candidate of a cone of equal radii that is chosen is as far away as the solid
/// cylinder.
proof fn lemma_cone_choice(
    a: real,
    lo: real,
    hi: real,
    radial: real,
    radius: real,
    slant: real,
    low: real,
    high: real,
    best: int,
)
    requires
        lo <= hi,
        a < lo || a > hi || radial > radius,
        slant >= 0real && low >= 0real && high >= 0real,
        ({
            let cap = if radius >= radial {
                radial
            } else {
                radius
            };
            let h = brought(a, lo, hi);
            let rest = (radial - cap) * (radial - cap);
            &&& slant * slant == (a - h) * (a - h) + (radial - radius) * (radial - radius)
            &&& low * low == (a - lo) * (a - lo) + rest
            &&& high * high == (a - hi) * (a - hi) + rest
        }),
        best == if !(low < slant) {
            if high < slant {
                2int
            } else {
                0
            }
        } else {
            if high < low {
                2int
            } else {
                1
            }
        },
    ensures
        ({
            let least = if best == 0 {
                slant
            } else if best == 1 {
                low
            } else {
                high
            };
            least * least == solid_distance(a, radial, radius, lo, hi)
        }),
{
    let cap: real = if radius >= radial {
        radial
    } else {
        radius
    };
    let h: real = brought(a, lo, hi);
    let far: real = solid_distance(a, radial, radius, lo, hi);
    assert(0real * 0real == 0real);
    lemma_natural_square(radial - radius);
    lemma_natural_square(radial - cap);
    lemma_natural_square(a - lo);
    lemma_natural_square(a - hi);
    lemma_flipped_square(a, lo);
    lemma_flipped_square(a, hi);
    assert((a - h) * (a - h) == excess(a, lo, hi));
    if a < lo {
        lemma_square_order(lo - a, hi - a);
    }
    if a > hi {
        lemma_square_order(a - hi, a - lo);
    }
    assert(slant * slant >= far && low * low >= far && high * high >= far);
    lemma_square_order(slant, low);
    lemma_square_order(low, slant);
    lemma_square_order(slant, high);
    lemma_square_order(high, slant);
    lemma_square_order(high, low);
    lemma_square_order(low, high);
}

/// Only one place between the ends and within the radius is as close as the solid
/// cylinder.
proof fn lemma_only_one(a: real, lo: real, hi: real, radial: real, radius: real, h: real, k: real)
    requires
        lo <= h <= hi,
        k <= radius,
        radial >= 0real,
        (a - h) * (a - h) + (radial - k) * (radial - k) == solid_distance(
            a,
            radial,
            radius,
            lo,
            hi,
        ),
    ensures
        h == brought(a, lo, hi),
        k == if radius >= radial {
            radial
        } else {
            radius
        },
{
    let x: real = (a - h) * (a - h);
    let y: real = (radial - k) * (radial - k);
    lemma_natural_square(a - h);
    lemma_natural_square(radial - k);
    lemma_flipped_square(a, h);
    if a < lo {
        lemma_square_order(lo - a, h - a);
        lemma_square_order(h - a, lo - a);
    } else if a > hi {
        lemma_square_order(a - hi, a - h);
        lemma_square_order(a - h, a - hi);
    } else {
        lemma_no_square(a - h);
    }
    if radial > radius {
        lemma_square_order(radial - radius, radial - k);
        lemma_square_order(radial - k, radial - radius);
    } else {
        lemma_no_square(radial - k);
    }
}

/// Only nothing has nothing as its square.
proof fn lemma_no_square(a: real)
    ensures
        a * a == 0real <==> a == 0real,
{
    if a != 0real {
        assert(a * a != 0real) by (nonlinear_arith)
            requires
                a != 0real,
        ;
    } else {
        assert(0real * 0real == 0real);
    }
}

/// Positions that are seen alike are alike.
proof fn lemma_seen_alike(u: Vec3, v: Vec3, center: [Scalar; 2], axis: Axis)
    ensures
        seen(u, center, axis) == seen(v, center, axis) ==> point_of(u) == point_of(v),
        turned(u, axis) == turned(v, axis) ==> point_of(u) == point_of(v),
{
}

/// Two results that look at one position from outside and at the same point agree.
proof fn lemma_same_outside<F: Fn(Op, Scalar, Scalar, Scalar) -> Scalar>(
    ar: F,
    pos: Vec3,
    a: Vec3,
    b: Vec3,
    fa: Vec3,
    fb: Vec3,
)
    requires
        exact_outside(ar, pos, a),
        exact_outside(ar, pos, b),
        point_of(a) == point_of(b),
    ensures
        ({
            let (r, s) = (from_outside(ar, pos, a, fa), from_outside(ar, pos, b, fb));
            num(r.distance) == num(s.distance) && point_of(r.normal) == point_of(s.normal)
                && point_of(r.point) == point_of(s.point)
        }),
{
    outside_result_is_metric(ar, pos, a, fa);
    outside_result_is_metric(ar, pos, b, fb);
    let (r, s): (SurfaceResult, SurfaceResult) = (
        from_outside(ar, pos, a, fa),
        from_outside(ar, pos, b, fb),
    );
    let (t, u): (real, real) = (num(r.distance), num(s.distance));
    lemma_square_order(t, u);
    lemma_square_order(u, t);
    let (m, n): (Point, Point) = (point_of(r.normal), point_of(s.normal));
    lemma_same_factor(t, m.x, n.x);
    lemma_same_factor(t, m.y, n.y);
    lemma_same_factor(t, m.z, n.z);
}

proof fn lemma_same_factor(t: real, a: real, b: real)
    requires
        t > 0real,
    ensures
        t * a == t * b ==> a == b,
{
    if t * a == t * b {
        lemma_drop_factor(t, a, b);
        lemma_drop_factor(t, b, a);
    }
}

/// From inside a cone of equal radii and the cylinder
/// have the same closest point, normal and distance.
pub proof fn even_cone_is_a_cylinder_inside<F: Fn(Op, Scalar, Scalar, Scalar) -> Scalar>(
    ar: F,
    pos: Vec3,
    center: [Scalar; 2],
    axis: Axis,
    rad: Scalar,
    lo: Scalar,
    hi: Scalar,
)
    requires
        exact_inside(ar, pos, center, rad, axis, lo, hi),
        exact_cone(ar, pos, center, axis, rad, lo, hi),
        num(rad) > 0real,
        ({
            let (axial, d0, d1) = decomposed(ar, pos, center, axis);
            axial.at_least(lo) && hi.at_least(axial) && rad.at_least(
                root(ar, squares(ar, d0, d1)),
            )
        }),
    ensures
        ({
            let a = closest_on_cylinder(ar, pos, center, rad, axis, lo, hi);
            let b = closest_on_cone(ar, pos, center, axis, rad, rad, lo, hi);
            num(a.distance) == num(b.distance) && point_of(a.point) == point_of(b.point)
                && point_of(a.normal) == point_of(b.normal)
        }),
{
    lemma_constants();
    let (axial, d0, d1): (Scalar, Scalar, Scalar) = decomposed(ar, pos, center, axis);
    let word: Scalar = root(ar, squares(ar, d0, d1));
    let (radial, size): (real, real) = (num(word), num(rad));
    let p: Point = seen(pos, center, axis);
    lemma_slant(ar, pos, center, axis, rad, lo, hi);
    lemma_ends(ar, pos, center, axis, rad, lo, hi);
    lemma_candidates(ar, pos, center, rad, axis, lo, hi);
    lemma_order(axial, lo);
    lemma_order(hi, axial);
    lemma_order(rad, word);
    lemma_order(cone_radius_between(ar, axial, rad, rad, lo, hi), word);
    let (slant_point, slant_normal, slant): (Vec3, Vec3, Scalar) = slanted_candidate(
        ar,
        pos,
        center,
        axis,
        rad,
        rad,
        lo,
        hi,
    );
    let (curved_point, curved_normal, _c): (Vec3, Vec3, Scalar) = curved_candidate(
        ar,
        pos,
        center,
        rad,
        axis,
        lo,
        hi,
    );
    let d_lo: Scalar = difference(ar, axial, lo);
    let d_hi: Scalar = difference(ar, hi, axial);
    let d_curved: Scalar = difference(ar, rad, word).absolute();
    lemma_absolute(difference(ar, rad, word));
    assert(0real * 0real == 0real);
    lemma_flipped_square(radial, size);
    lemma_square_order(num(slant), size - radial);
    lemma_square_order(size - radial, num(slant));
    assert(num(slant) == num(d_curved));
    lemma_order(d_lo, slant);
    lemma_order(d_hi, slant);
    lemma_order(d_lo, d_curved);
    lemma_order(d_hi, d_curved);
    lemma_negated(slant);
    lemma_seen_alike(curved_point, slant_point, center, axis);
    lemma_seen_alike(curved_normal, slant_normal, center, axis);
    lemma_seen_alike(
        cap_point(ar, pos, center, rad, axis, lo),
        cone_cap(ar, pos, center, axis, rad, lo),
        center,
        axis,
    );
    lemma_seen_alike(
        cap_point(ar, pos, center, rad, axis, hi),
        cone_cap(ar, pos, center, axis, rad, hi),
        center,
        axis,
    );
}

/// From outside a cone of equal radii and the cylinder
/// have the same closest point, normal and distance.
#[verifier::rlimit(60)]
pub proof fn even_cone_is_a_cylinder_outside<F: Fn(Op, Scalar, Scalar, Scalar) -> Scalar>(
    ar: F,
    pos: Vec3,
    center: [Scalar; 2],
    axis: Axis,
    rad: Scalar,
    lo: Scalar,
    hi: Scalar,
)
    requires
        exact_beyond(ar, pos, center, rad, axis, lo, hi),
        exact_cone(ar, pos, center, axis, rad, lo, hi),
        exact_distance(ar, pos, cone_cap(ar, pos, center, axis, rad, lo)),
        exact_distance(ar, pos, cone_cap(ar, pos, center, axis, rad, hi)),
        exact_outside(
            ar,
            pos,
            closest_on_cone(ar, pos, center, axis, rad, rad, lo, hi).point,
        ),
        num(rad) > 0real,
        ({
            let (axial, d0, d1) = decomposed(ar, pos, center, axis);
            !(axial.at_least(lo) && hi.at_least(axial) && rad.at_least(
                root(ar, squares(ar, d0, d1)),
            ))
        }),
    ensures
        ({
            let a = closest_on_cylinder(ar, pos, center, rad, axis, lo, hi);
            let b = closest_on_cone(ar, pos, center, axis, rad, rad, lo, hi);
            num(a.distance) == num(b.distance) && point_of(a.point) == point_of(b.point)
                && point_of(a.normal) == point_of(b.normal)
        }),
{
    lemma_constants();
    let (axial, d0, d1): (Scalar, Scalar, Scalar) = decomposed(ar, pos, center, axis);
    let word: Scalar = root(ar, squares(ar, d0, d1));
    let (radial, size): (real, real) = (num(word), num(rad));
    let p: Point = seen(pos, center, axis);
    let (n0, n1): (real, real) = direction(ar, pos, center, axis);
    let cap: real = if size >= radial {
        radial
    } else {
        size
    };
    let h: real = brought(p.x, num(lo), num(hi));
    lemma_slant(ar, pos, center, axis, rad, lo, hi);
    lemma_ends(ar, pos, center, axis, rad, lo, hi);
    lemma_candidates(ar, pos, center, rad, axis, lo, hi);
    lemma_order(axial, lo);
    lemma_order(hi, axial);
    lemma_order(rad, word);
    lemma_order(cone_radius_between(ar, axial, rad, rad, lo, hi), word);
    assert(num(lo) <= num(hi));
    let (at, fallback, ha, ka): (Vec3, Vec3, real, real) = lemma_outside_choice(
        ar,
        pos,
        center,
        rad,
        axis,
        lo,
        hi,
    );
    lemma_only_one(p.x, num(lo), num(hi), radial, size, ha, ka);
    let (slant_point, slant_normal, slant): (Vec3, Vec3, Scalar) = slanted_candidate(
        ar,
        pos,
        center,
        axis,
        rad,
        rad,
        lo,
        hi,
    );
    let lo_point: Vec3 = cone_cap(ar, pos, center, axis, rad, lo);
    let hi_point: Vec3 = cone_cap(ar, pos, center, axis, rad, hi);
    let lo_dist: Scalar = norm_of(ar, minus_of(ar, pos, lo_point));
    let hi_dist: Scalar = norm_of(ar, minus_of(ar, pos, hi_point));
    lemma_distance(ar, pos, lo_point, center, axis);
    lemma_distance(ar, pos, hi_point, center, axis);
    lemma_apart_radial(p.x, num(lo), radial, cap, n0, n1);
    lemma_apart_radial(p.x, num(hi), radial, cap, n0, n1);
    let chosen: Seq<Scalar> = seq![slant, lo_dist, hi_dist];
    lemma_least_of_three(chosen);
    let best: int = least_at(chosen, 3);
    lemma_cone_choice(
        p.x,
        num(lo),
        num(hi),
        radial,
        size,
        num(slant),
        num(lo_dist),
        num(hi_dist),
        best,
    );
    let (bt, ft, hb, kb): (Vec3, Vec3, real, real) = if best == 0 {
        (slant_point, slant_normal, h, size)
    } else if best == 1 {
        (
            lo_point,
            along_axis(Scalar::minus_one(), Scalar::zero(), Scalar::zero(), axis),
            num(lo),
            cap,
        )
    } else {
        (
            hi_point,
            along_axis(Scalar::one(), Scalar::zero(), Scalar::zero(), axis),
            num(hi),
            cap,
        )
    };
    lemma_only_one(p.x, num(lo), num(hi), radial, size, hb, kb);
    assert(closest_on_cone(ar, pos, center, axis, rad, rad, lo, hi) == from_outside(
        ar,
        pos,
        bt,
        ft,
    ));
    lemma_seen_alike(at, bt, center, axis);
    lemma_same_outside(ar, pos, at, bt, fallback, ft);
}

} // verus!

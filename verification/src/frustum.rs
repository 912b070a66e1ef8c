//! What the closest point of a cone is, where no operation rounds.

use crate::cone::brought;
use crate::cylinder::{
    exact_distance, lemma_absolute, lemma_apart_radial, lemma_direction, lemma_distance,
    lemma_least_of_three, lemma_no_squares, lemma_seen_apart, seen, turned,
};
use crate::drawn::{exact_squares, lemma_natural_square};
use crate::exact::{
    exact_difference, exact_product, exact_quotient, exact_root, exact_sum, lemma_constants,
    lemma_divided, lemma_mul_add, lemma_mul_order, lemma_negated, lemma_order, num,
};
use crate::geometry::{
    apart, exact_outside, length_squared, lemma_apart_along, lemma_drop_factor, lemma_grow_factor,
    lemma_nearest_on_sphere, lemma_square_of_difference, lemma_square_order,
    outside_result_is_metric, point_of, Point,
};
use crate::region::{
    along_axis, closest_on_cone, cone_cap, cone_radius, cone_radius_between, decomposed,
    from_outside, inside, least_at, radial_direction, slanted_candidate, squares, tiny, Axis, Region, SurfaceResult,
};
use crate::scalar::{difference, product, quotient, root, sum, Op, Scalar, Vec3};
use crate::vec3::{minus_of, norm_of};
use vstd::prelude::*;

verus! {

/// A segment in the half plane of the coordinate along the axis and the distance
/// from the centre line: where it begins, and how far it goes along and across.
pub struct Segment {
    pub x: real,
    pub y: real,
    pub along: real,
    pub across: real,
}

impl Segment {
    /// The square of its length.
    pub open spec fn size(self) -> real {
        self.along * self.along + self.across * self.across
    }
}

/// The foot of the perpendicular is the closest point of the whole line.
proof fn lemma_foot_is_closest(s: Segment, a: real, b: real, t: real, u: real)
    requires
        t * s.size() == (a - s.x) * s.along + (b - s.y) * s.across,
    ensures
        ({
            let (x, y) = (a - (s.x + t * s.along), b - (s.y + t * s.across));
            let (v, w) = (a - (s.x + u * s.along), b - (s.y + u * s.across));
            &&& x * s.along + y * s.across == 0real
            &&& v * v + w * w >= x * x + y * y
        }),
{
    let (x, y): (real, real) = (a - (s.x + t * s.along), b - (s.y + t * s.across));
    let (v, w): (real, real) = (a - (s.x + u * s.along), b - (s.y + u * s.across));
    let k: real = t - u;
    let (p, q): (real, real) = (s.along, s.across);
    // x is perpendicular.
    lemma_mul_add(t, p * p, q * q);
    lemma_mul_order(t, p, p);
    lemma_mul_order(t, q, q);
    lemma_mul_add(p, a - s.x, -(t * p));
    lemma_mul_add(q, b - s.y, -(t * q));
    assert((-(t * p)) * p == -((t * p) * p)) by (nonlinear_arith);
    assert((-(t * q)) * q == -((t * q) * q)) by (nonlinear_arith);
    assert(x == (a - s.x) + (-(t * p)) && y == (b - s.y) + (-(t * q)));
    assert(x * p + y * q == 0real);
    // v is x plus k times the direction.
    lemma_mul_add(p, t, -u);
    lemma_mul_add(q, t, -u);
    assert((-u) * p == -(u * p)) by (nonlinear_arith);
    assert((-u) * q == -(u * q)) by (nonlinear_arith);
    assert(v == x + k * p && w == y + k * q);
    lemma_square_of_sum(x, k * p);
    lemma_square_of_sum(y, k * q);
    lemma_mul_order(x, k, p);
    lemma_mul_order(k, x, p);
    lemma_mul_order(y, k, q);
    lemma_mul_order(k, y, q);
    assert(x * (k * p) == k * (x * p)) by {
        lemma_mul_order(x, k, p);
        lemma_mul_order(k, x, p);
        assert((x * k) * p == (k * x) * p);
    }
    assert(y * (k * q) == k * (y * q)) by {
        lemma_mul_order(y, k, q);
        lemma_mul_order(k, y, q);
        assert((y * k) * q == (k * y) * q);
    }
    lemma_mul_add(k, x * p, y * q);
    assert(k * 0real == 0real);
    lemma_natural_square(k * p);
    lemma_natural_square(k * q);
}

proof fn lemma_square_of_sum(a: real, b: real)
    ensures
        (a + b) * (a + b) == a * a + 2real * (a * b) + b * b,
{
    lemma_mul_add(a + b, a, b);
    lemma_mul_add(a, a, b);
    lemma_mul_add(b, a, b);
    lemma_mul_order(a, b, b);
}

/// A vector across a unit direction is a multiple of the unit vector across it.
proof fn lemma_across_direction(x: real, y: real, c: real, s: real)
    requires
        c * c + s * s == 1real,
        x * c + y * s == 0real,
    ensures
        ({
            let k = -(x * s) + y * c;
            &&& x == k * (-s)
            &&& y == k * c
            &&& x * x + y * y == k * k
        }),
{
    let k: real = -(x * s) + y * c;
    // x = x (c c + s s) = c (x c) + s (x s) = -c (y s) + s (x s) = -s k
    lemma_mul_add(x, c * c, s * s);
    lemma_mul_order(x, c, c);
    lemma_mul_order(x, s, s);
    assert(x * 1real == x && y * 1real == y);
    assert(x == (x * c) * c + (x * s) * s);
    assert((x * c) * c == -((y * s) * c)) by {
        assert(x * c == -(y * s));
        assert((-(y * s)) * c == -((y * s) * c)) by (nonlinear_arith);
    }
    lemma_mul_order(y, s, c);
    lemma_mul_order(s, c, c);
    lemma_mul_order(y, c, s);
    assert((y * s) * c == (y * c) * s);
    lemma_mul_add(s, x * s, -(y * c));
    assert((-(y * c)) * s == -((y * c) * s)) by (nonlinear_arith);
    assert((x * s - y * c) * s == (x * s) * s - (y * c) * s);
    assert(k * (-s) == (x * s - y * c) * s) by (nonlinear_arith)
        requires
            k == -(x * s) + y * c,
    ;
    lemma_mul_add(y, c * c, s * s);
    lemma_mul_order(y, c, c);
    lemma_mul_order(y, s, s);
    assert((y * s) * s == -((x * c) * s)) by {
        assert(y * s == -(x * c));
        assert((-(x * c)) * s == -((x * c) * s)) by (nonlinear_arith);
    }
    lemma_mul_order(x, c, s);
    lemma_mul_order(c, s, s);
    lemma_mul_order(x, s, c);
    assert((x * c) * s == (x * s) * c);
    lemma_mul_add(c, -(x * s), y * c);
    assert((-(x * s)) * c == -((x * s) * c)) by (nonlinear_arith);
    // The squares.
    assert((k * (-s)) * (k * (-s)) == (k * k) * (s * s)) by (nonlinear_arith);
    assert((k * c) * (k * c) == (k * k) * (c * c)) by (nonlinear_arith);
    lemma_mul_add(k * k, s * s, c * c);
    assert((k * k) * 1real == k * k);
}

/// The signed distance of a point from the line of the slanted surface, and the foot
/// of its perpendicular.
proof fn lemma_signed_distance(s: Segment, a: real, b: real, t: real, len: real)
    requires
        s.along > 0real,
        len > 0real,
        len * len == s.size(),
        t * s.size() == (a - s.x) * s.along + (b - s.y) * s.across,
    ensures
        ({
            let (na, nr) = (-(s.across / len), s.along / len);
            let (x, y) = (a - (s.x + t * s.along), b - (s.y + t * s.across));
            let k = x * na + y * nr;
            &&& na * na + nr * nr == 1real
            &&& x == k * na
            &&& y == k * nr
            &&& x * x + y * y == k * k
            &&& k * len == (b - s.y) * s.along - (a - s.x) * s.across
        }),
{
    let (p, q): (real, real) = (s.along, s.across);
    let (c, e): (real, real) = (p / len, q / len);
    let (x, y): (real, real) = (a - (s.x + t * p), b - (s.y + t * q));
    lemma_foot_is_closest(s, a, b, t, t);
    lemma_divided(p, len);
    lemma_divided(q, len);
    // The direction is a unit vector.
    assert((c * len) * (c * len) == (c * c) * (len * len)) by (nonlinear_arith);
    assert((e * len) * (e * len) == (e * e) * (len * len)) by (nonlinear_arith);
    lemma_mul_add(len * len, c * c, e * e);
    let unit: real = c * c + e * e;
    assert(unit * (len * len) == len * len);
    assert(unit == 1real) by {
        assert(len * len > 0real) by (nonlinear_arith)
            requires
                len > 0real,
        ;
        let m: real = len * len;
        assert(unit * m == m ==> unit == 1real) by (nonlinear_arith)
            requires
                m > 0real,
        ;
    }
    // The offset is across it.
    lemma_mul_order(x, c, len);
    lemma_mul_order(y, e, len);
    lemma_mul_add(len, x * c, y * e);
    assert((x * c + y * e) * len == 0real);
    assert(x * c + y * e == 0real) by {
        let m: real = x * c + y * e;
        assert(m * len == 0real ==> m == 0real) by (nonlinear_arith)
            requires
                len > 0real,
        ;
    }
    lemma_across_direction(x, y, c, e);
    assert(x * (-e) == -(x * e)) by (nonlinear_arith);
    assert((-e) * (-e) == e * e) by (nonlinear_arith);
    // Times the length.
    let k: real = -(x * e) + y * c;
    lemma_mul_order(x, e, len);
    lemma_mul_order(y, c, len);
    lemma_mul_add(len, -(x * e), y * c);
    assert((-(x * e)) * len == -((x * e) * len)) by (nonlinear_arith);
    assert(k * len == y * p - x * q);
    lemma_mul_add(p, b - s.y, -(t * q));
    lemma_mul_add(q, a - s.x, -(t * p));
    assert((-(t * q)) * p == -((t * q) * p)) by (nonlinear_arith);
    assert((-(t * p)) * q == -((t * p) * q)) by (nonlinear_arith);
    lemma_mul_order(t, q, p);
    lemma_mul_order(t, p, q);
    lemma_mul_order(q, p, p);
    assert((t * q) * p == (t * p) * q);
    assert(y == (b - s.y) + (-(t * q)) && x == (a - s.x) + (-(t * p)));
}

/// The candidates for the closest point of a cone are computed without rounding. The
/// position lies on the centre line or farther away from it than what counts as
/// nothing.
pub open spec fn exact_frustum<F: Fn(Op, Scalar, Scalar, Scalar) -> Scalar>(
    ar: F,
    pos: Vec3,
    center: [Scalar; 2],
    axis: Axis,
    rad_lo: Scalar,
    rad_hi: Scalar,
    lo: Scalar,
    hi: Scalar,
) -> bool {
    let (axial, d0, d1) = decomposed(ar, pos, center, axis);
    let radial = root(ar, squares(ar, d0, d1));
    let da = difference(ar, hi, lo);
    let dr = difference(ar, rad_hi, rad_lo);
    let u = difference(ar, axial, lo);
    let v = difference(ar, radial, rad_lo);
    let top = sum(ar, product(ar, u, da), product(ar, v, dr));
    let far = quotient(ar, top, squares(ar, da, dr));
    let t = far.clamped(Scalar::zero(), Scalar::one());
    let proj_axial = sum(ar, lo, product(ar, t, da));
    let proj_radial = sum(ar, rad_lo, product(ar, t, dr));
    let len = root(ar, squares(ar, dr.negated(), da));
    let (n0, n1) = radial_direction(ar, d0, d1);
    let nr = quotient(ar, da, len);
    let w = quotient(ar, u, da).clamped(Scalar::zero(), Scalar::one());
    let (x, y) = (difference(ar, axial, proj_axial), difference(ar, radial, proj_radial));
    let cap_lo = rad_lo.smaller(radial.greater(Scalar::zero())).smaller(rad_lo);
    let cap_hi = rad_hi.smaller(radial.greater(Scalar::zero())).smaller(rad_hi);
    &&& !axial.nan() && !lo.nan() && !hi.nan() && !rad_lo.nan() && !rad_hi.nan()
    &&& num(d0) == seen(pos, center, axis).y && num(d1) == seen(pos, center, axis).z
    &&& exact_squares(ar, d0, d1) && exact_root(ar, squares(ar, d0, d1))
    &&& if radial.below(tiny()) {
        num(radial) == 0real
    } else {
        exact_quotient(ar, d0, radial) && exact_quotient(ar, d1, radial)
    }
    &&& exact_difference(ar, hi, lo) && num(da) > 0real && !da.absolute().below(tiny())
    &&& exact_difference(ar, rad_hi, rad_lo)
    &&& exact_squares(ar, da, dr) && !squares(ar, da, dr).below(tiny())
    &&& exact_difference(ar, axial, lo) && exact_difference(ar, radial, rad_lo)
    &&& exact_difference(ar, hi, axial)
    &&& exact_product(ar, u, da) && exact_product(ar, v, dr)
    &&& exact_sum(ar, product(ar, u, da), product(ar, v, dr))
    &&& exact_quotient(ar, top, squares(ar, da, dr))
    &&& exact_product(ar, t, da) && exact_sum(ar, lo, product(ar, t, da))
    &&& exact_product(ar, t, dr) && exact_sum(ar, rad_lo, product(ar, t, dr))
    &&& exact_squares(ar, dr.negated(), da) && exact_root(ar, squares(ar, dr.negated(), da))
    &&& tiny().below(len)
    &&& exact_quotient(ar, dr.negated(), len) && exact_quotient(ar, da, len)
    &&& exact_product(ar, n0, proj_radial) && exact_sum(
        ar,
        center[0],
        product(ar, n0, proj_radial),
    )
    &&& exact_product(ar, n1, proj_radial) && exact_sum(
        ar,
        center[1],
        product(ar, n1, proj_radial),
    )
    &&& exact_product(ar, nr, n0) && exact_product(ar, nr, n1)
    &&& exact_difference(ar, axial, proj_axial) && exact_difference(ar, radial, proj_radial)
    &&& exact_squares(ar, x, y) && exact_root(ar, squares(ar, x, y))
    &&& exact_quotient(ar, u, da)
    &&& exact_product(ar, w, dr) && exact_sum(ar, rad_lo, product(ar, w, dr))
    &&& exact_product(ar, n0, cap_lo) && exact_sum(ar, center[0], product(ar, n0, cap_lo))
    &&& exact_product(ar, n1, cap_lo) && exact_sum(ar, center[1], product(ar, n1, cap_lo))
    &&& exact_product(ar, n0, cap_hi) && exact_sum(ar, center[0], product(ar, n0, cap_hi))
    &&& exact_product(ar, n1, cap_hi) && exact_sum(ar, center[1], product(ar, n1, cap_hi))
}

/// A position inside a cone, as the real numbers see it.
pub struct Inner {
    pub segment: Segment,
    /// The coordinate along the axis and the distance from the centre line.
    pub a: real,
    pub b: real,
    /// The direction across the axis.
    pub n0: real,
    pub n1: real,
    /// The place of the foot of the perpendicular on the line, and the closest place
    /// of the surface; the length of the slanted line, and the distance.
    pub foot: real,
    pub t: real,
    pub len: real,
    pub slant: real,
}

/// What the slanted surface gives.
proof fn lemma_slanted<F: Fn(Op, Scalar, Scalar, Scalar) -> Scalar>(
    ar: F,
    pos: Vec3,
    center: [Scalar; 2],
    axis: Axis,
    rad_lo: Scalar,
    rad_hi: Scalar,
    lo: Scalar,
    hi: Scalar,
) -> (i: Inner)
    requires
        exact_frustum(ar, pos, center, axis, rad_lo, rad_hi, lo, hi),
    ensures
        ({
            let (axial, d0, d1) = decomposed(ar, pos, center, axis);
            let p = seen(pos, center, axis);
            let s = i.segment;
            let (at, normal, dist) = slanted_candidate(
                ar,
                pos,
                center,
                axis,
                rad_lo,
                rad_hi,
                lo,
                hi,
            );
            &&& i.a == p.x && num(axial) == p.x
            &&& i.b == num(root(ar, squares(ar, d0, d1))) && i.b >= 0real
            &&& s == Segment {
                x: num(lo),
                y: num(rad_lo),
                along: num(hi) - num(lo),
                across: num(rad_hi) - num(rad_lo),
            }
            &&& s.along > 0real
            &&& i.len > 0real && i.len * i.len == s.size()
            &&& i.foot * s.size() == (i.a - s.x) * s.along + (i.b - s.y) * s.across
            &&& i.t == brought(i.foot, 0real, 1real)
            &&& i.n0 * i.n0 + i.n1 * i.n1 == 1real
            &&& p.y == i.b * i.n0 && p.z == i.b * i.n1
            &&& seen(at, center, axis) == Point {
                x: s.x + i.t * s.along,
                y: i.n0 * (s.y + i.t * s.across),
                z: i.n1 * (s.y + i.t * s.across),
            }
            &&& turned(normal, axis) == Point {
                x: -(s.across / i.len),
                y: (s.along / i.len) * i.n0,
                z: (s.along / i.len) * i.n1,
            }
            &&& !dist.nan() && num(dist) == i.slant && i.slant >= 0real
            &&& ({
                let (x, y) = (i.a - (s.x + i.t * s.along), i.b - (s.y + i.t * s.across));
                i.slant * i.slant == x * x + y * y
            })
            &&& num(radial_direction(ar, d0, d1).0) == i.n0
            &&& num(radial_direction(ar, d0, d1).1) == i.n1
        }),
{
    lemma_constants();
    let (axial, d0, d1): (Scalar, Scalar, Scalar) = decomposed(ar, pos, center, axis);
    let word: Scalar = root(ar, squares(ar, d0, d1));
    let p: Point = seen(pos, center, axis);
    let da: Scalar = difference(ar, hi, lo);
    let dr: Scalar = difference(ar, rad_hi, rad_lo);
    let u: Scalar = difference(ar, axial, lo);
    let v: Scalar = difference(ar, word, rad_lo);
    let top: Scalar = sum(ar, product(ar, u, da), product(ar, v, dr));
    let far: Scalar = quotient(ar, top, squares(ar, da, dr));
    let t: Scalar = far.clamped(Scalar::zero(), Scalar::one());
    let len: Scalar = root(ar, squares(ar, dr.negated(), da));
    lemma_order(far, Scalar::zero());
    lemma_order(Scalar::one(), far);
    lemma_negated(dr);
    let s: Segment = Segment { x: num(lo), y: num(rad_lo), along: num(da), across: num(dr) };
    lemma_divided(num(top), s.size());
    let e: real = num(dr);
    assert((-e) * (-e) == e * e) by (nonlinear_arith);
    let l: real = num(len);
    assert((-e) / l == -(e / l)) by (nonlinear_arith)
        requires
            l != 0real,
    ;
    let r: real = num(word);
    let (n0, n1): (real, real) = (
        num(radial_direction(ar, d0, d1).0),
        num(radial_direction(ar, d0, d1).1),
    );
    if word.below(tiny()) {
        assert(0real * 0real == 0real && 1real * 1real == 1real);
        lemma_no_squares(p.y, p.z);
        assert(0real * 1real == 0real);
    } else {
        lemma_unit_direction(p.y, p.z, r);
    }
    let (x, y): (Scalar, Scalar) = (
        difference(ar, axial, sum(ar, lo, product(ar, t, da))),
        difference(ar, word, sum(ar, rad_lo, product(ar, t, dr))),
    );
    Inner {
        segment: s,
        a: p.x,
        b: r,
        n0,
        n1,
        foot: num(far),
        t: num(t),
        len: l,
        slant: num(root(ar, squares(ar, x, y))),
    }
}

/// The direction across the axis is a unit vector, and the offset is its multiple.
proof fn lemma_unit_direction(x: real, y: real, r: real)
    requires
        r != 0real,
        r * r == x * x + y * y,
    ensures
        (x / r) * (x / r) + (y / r) * (y / r) == 1real,
        r * (x / r) == x,
        r * (y / r) == y,
{
    let inv: real = 1real / r;
    lemma_direction(x, y, r, inv);
    assert(x / r == x * inv) by (nonlinear_arith)
        requires
            r != 0real,
            inv == 1real / r,
    ;
    assert(y / r == y * inv) by (nonlinear_arith)
        requires
            r != 0real,
            inv == 1real / r,
    ;
}

/// The point lies on the surface of a cone: on the slanted surface at `place`, which
/// goes from 0 at the lower end to 1 at the upper, or on one of the ends.
pub open spec fn on_cone(q: Point, s: Segment, place: real) -> bool {
    let radius = s.y + place * s.across;
    let far = s.y + s.across;
    let around = q.y * q.y + q.z * q.z;
    ||| 0real <= place <= 1real && q.x == s.x + place * s.along && around == radius * radius
    ||| q.x == s.x && around <= s.y * s.y
    ||| q.x == s.x + s.along && around <= far * far
}

/// The slanted line of a cone.
pub open spec fn slanted_line(rad_lo: Scalar, rad_hi: Scalar, lo: Scalar, hi: Scalar) -> Segment {
    Segment {
        x: num(lo),
        y: num(rad_lo),
        along: num(hi) - num(lo),
        across: num(rad_hi) - num(rad_lo),
    }
}

/// Inside a cone, where the foot of the perpendicular on the slanted line lies beyond
/// an end, the position is no farther from the centre line than either end is wide,
/// and is closer to that end than to the slanted surface.
proof fn lemma_foot_beyond(s: Segment, a: real, b: real, foot: real, slant: real)
    requires
        s.along > 0real,
        foot * s.size() == (a - s.x) * s.along + (b - s.y) * s.across,
        foot < 0real || foot > 1real,
        (b - s.y) * s.along <= (a - s.x) * s.across,
        s.x <= a <= s.x + s.along,
        slant >= 0real,
        ({
            let t = brought(foot, 0real, 1real);
            let (x, y) = (a - (s.x + t * s.along), b - (s.y + t * s.across));
            slant * slant == x * x + y * y
        }),
    ensures
        b <= s.y,
        b <= s.y + s.across,
        foot < 0real ==> slant > a - s.x,
        foot > 1real ==> slant > s.x + s.along - a,
{
    let (p, q): (real, real) = (s.along, s.across);
    let (u, v): (real, real) = (a - s.x, b - s.y);
    let (f, g): (real, real) = (u - p, v - q);
    lemma_from_the_top(s, a, b);
    lemma_natural_square(q);
    lemma_signs(p, p);
    lemma_signs(foot, s.size());
    assert(0real * p == 0real && 0real * q == 0real && 1real * p == p && 1real * q == q);
    if foot > 1real {
        assert(foot * s.size() > s.size()) by (nonlinear_arith)
            requires
                foot > 1real,
                s.size() > 0real,
        ;
    }
    lemma_signs(v, p);
    lemma_signs(u, q);
    lemma_signs(u, p);
    lemma_signs(v, q);
    lemma_signs(g, p);
    lemma_signs(f, q);
    lemma_signs(f, p);
    lemma_signs(g, q);
    lemma_natural_square(v);
    lemma_natural_square(g);
    lemma_no_square(v);
    lemma_no_square(g);
    if foot < 0real {
        lemma_square_order(slant, u);
        if slant <= u {
            assert(v == 0real);
            assert(0real * q == 0real);
            assert(false);
        }
    } else {
        assert((-f) * (-f) == f * f) by (nonlinear_arith);
        lemma_square_order(slant, -f);
        if slant <= -f {
            assert(g == 0real);
            assert(0real * q == 0real);
            assert(false);
        }
    }
}

/// No place of the slanted line is closer than the closest one, also where the foot
/// of the perpendicular lies beyond an end.
proof fn lemma_segment_bound(s: Segment, a: real, b: real, foot: real, place: real)
    requires
        s.along > 0real,
        foot * s.size() == (a - s.x) * s.along + (b - s.y) * s.across,
        0real <= place <= 1real,
    ensures
        ({
            let t = brought(foot, 0real, 1real);
            let (x, y) = (a - (s.x + t * s.along), b - (s.y + t * s.across));
            let (v, w) = (a - (s.x + place * s.along), b - (s.y + place * s.across));
            v * v + w * w >= x * x + y * y
        }),
{
    let (p, q): (real, real) = (s.along, s.across);
    let (u, v): (real, real) = (a - s.x, b - s.y);
    assert(0real * p == 0real && 0real * q == 0real && 1real * p == p && 1real * q == q);
    lemma_natural_square(q);
    lemma_signs(p, p);
    lemma_signs(foot, s.size());
    if 0real <= foot <= 1real {
        lemma_foot_is_closest(s, a, b, foot, place);
    } else if foot < 0real {
        let z: real = u * p + v * q;
        lemma_signs(place, z);
        lemma_mul_add(place, u * p, v * q);
        assert(u * (place * p) == place * (u * p)) by (nonlinear_arith);
        assert(v * (place * q) == place * (v * q)) by (nonlinear_arith);
        assert(behind(a, b, s.x + place * p, s.y + place * q, s.x, s.y));
        lemma_behind_is_farther(a, b, s.x + place * p, s.y + place * q, s.x, s.y);
    } else {
        assert(foot * s.size() > s.size()) by (nonlinear_arith)
            requires
                foot > 1real,
                s.size() > 0real,
        ;
        lemma_from_the_top(s, a, b);
        let (f, g): (real, real) = (u - p, v - q);
        let z: real = f * p + g * q;
        let k: real = place - 1real;
        lemma_signs(k, z);
        lemma_mul_add(k, f * p, g * q);
        lemma_mul_add(p, place, -1real);
        lemma_mul_add(q, place, -1real);
        assert((-1real) * p == -p && (-1real) * q == -q);
        assert(k == place + (-1real));
        assert(k * p == place * p - p && k * q == place * q - q);
        assert(f * (k * p) == k * (f * p)) by (nonlinear_arith);
        assert(g * (k * q) == k * (g * q)) by (nonlinear_arith);
        assert(behind(a, b, s.x + place * p, s.y + place * q, s.x + p, s.y + q));
        lemma_behind_is_farther(a, b, s.x + place * p, s.y + place * q, s.x + p, s.y + q);
    }
}

/// Only nothing has nothing as its square.
proof fn lemma_no_square(a: real)
    ensures
        a * a == 0real ==> a == 0real,
{
    assert(a * a == 0real ==> a == 0real) by (nonlinear_arith);
}

/// The place of a foot between the ends.
proof fn lemma_foot_place(foot: real, size: real)
    requires
        size > 0real,
        0real <= foot * size <= size,
    ensures
        0real <= foot <= 1real,
{
    if foot < 0real {
        assert(foot * size < 0real) by (nonlinear_arith)
            requires
                foot < 0real,
                size > 0real,
        ;
    }
    if foot > 1real {
        assert(foot * size > size) by (nonlinear_arith)
            requires
                foot > 1real,
                size > 0real,
        ;
    }
}

/// Inside, the distance from the slanted line is not overstated: a point that is
/// farther from the centre line than an end is wide is closer to the slanted surface
/// than to that end.
proof fn lemma_inside_slant(s: Segment, a: real, b: real, k: real, len: real, slant: real)
    requires
        s.along > 0real,
        len > 0real,
        len * len == s.size(),
        k * len == (b - s.y) * s.along - (a - s.x) * s.across,
        (b - s.y) * s.along <= (a - s.x) * s.across,
        slant >= 0real,
        slant * slant == k * k,
        s.x <= a <= s.x + s.along,
    ensures
        slant == -k,
        b > s.y ==> slant < a - s.x || a == s.x && slant <= 0real,
        b > s.y + s.across ==> slant < s.x + s.along - a || a == s.x + s.along && slant <= 0real,
{
    let (p, q): (real, real) = (s.along, s.across);
    assert(k <= 0real) by {
        if k > 0real {
            assert(k * len > 0real) by (nonlinear_arith)
                requires
                    k > 0real,
                    len > 0real,
            ;
        }
    }
    assert((-k) * (-k) == k * k) by (nonlinear_arith);
    lemma_square_order(slant, -k);
    lemma_square_order(-k, slant);
    assert((-k) * len == -(k * len)) by (nonlinear_arith);
    lemma_natural_square(p);
    lemma_natural_square(q);
    // Both parts of the line are no longer than the line.
    if q >= 0real {
        lemma_square_order(q, len);
    } else {
        assert((-q) * (-q) == q * q) by (nonlinear_arith);
        lemma_square_order(-q, len);
    }
    assert(-len <= q <= len);
    let (u, w): (real, real) = (a - s.x, s.x + p - a);
    if b > s.y {
        let g: real = b - s.y;
        assert(g * p > 0real) by (nonlinear_arith)
            requires
                g > 0real,
                p > 0real,
        ;
        assert(u * q <= u * len) by (nonlinear_arith)
            requires
                u >= 0real,
                q <= len,
        ;
        assert(slant * len < u * len);
        lemma_less(slant, u, len);
    }
    if b > s.y + q {
        let g: real = b - s.y - q;
        assert(g * p > 0real) by (nonlinear_arith)
            requires
                g > 0real,
                p > 0real,
        ;
        lemma_mul_add(p, g, q);
        lemma_mul_add(q, u, w);
        lemma_mul_order(p, q, q);
        assert(b - s.y == g + q);
        assert(p == u + w);
        assert(w * (-q) <= w * len) by (nonlinear_arith)
            requires
                w >= 0real,
                -q <= len,
        ;
        assert(w * (-q) == -(w * q)) by (nonlinear_arith);
        assert(slant * len < w * len);
        lemma_less(slant, w, len);
    }
}

proof fn lemma_less(a: real, b: real, f: real)
    requires
        f > 0real,
        a * f < b * f,
    ensures
        a < b,
{
    if a >= b {
        assert(a * f >= b * f) by (nonlinear_arith)
            requires
                f > 0real,
                a >= b,
        ;
    }
}

/// No point of the slanted surface is closer than the foot of the perpendicular.
proof fn lemma_slanted_bound(i: Inner, p: Point, q: Point, place: real)
    requires
        i.segment.along > 0real,
        i.foot * i.segment.size() == (i.a - i.segment.x) * i.segment.along + (i.b - i.segment.y)
            * i.segment.across,
        i.t == brought(i.foot, 0real, 1real),
        0real <= place <= 1real,
        i.b >= 0real,
        i.n0 * i.n0 + i.n1 * i.n1 == 1real,
        p == (Point { x: i.a, y: i.b * i.n0, z: i.b * i.n1 }),
        q.x == i.segment.x + place * i.segment.along,
        i.segment.y + place * i.segment.across > 0real,
        q.y * q.y + q.z * q.z == (i.segment.y + place * i.segment.across) * (i.segment.y + place
            * i.segment.across),
        ({
            let (x, y) = (
                i.a - (i.segment.x + i.t * i.segment.along),
                i.b - (i.segment.y + i.t * i.segment.across),
            );
            i.slant * i.slant == x * x + y * y
        }),
    ensures
        apart(p, q) >= i.slant * i.slant,
{
    let s: Segment = i.segment;
    let radius: real = s.y + place * s.across;
    let n: Point = Point { x: 0real, y: i.n0, z: i.n1 };
    let flat: Point = Point { x: 0real, y: q.y, z: q.z };
    assert(0real * 0real == 0real && i.b * 0real == 0real);
    lemma_nearest_on_sphere(i.b, n, radius, flat);
    lemma_segment_bound(s, i.a, i.b, i.foot, place);
}

/// The width of a cone at a position between its ends, times its length.
proof fn lemma_width<F: Fn(Op, Scalar, Scalar, Scalar) -> Scalar>(
    ar: F,
    pos: Vec3,
    center: [Scalar; 2],
    axis: Axis,
    rad_lo: Scalar,
    rad_hi: Scalar,
    lo: Scalar,
    hi: Scalar,
)
    requires
        exact_frustum(ar, pos, center, axis, rad_lo, rad_hi, lo, hi),
        num(lo) <= num(decomposed(ar, pos, center, axis).0) <= num(hi),
    ensures
        ({
            let axial = decomposed(ar, pos, center, axis).0;
            let r = cone_radius_between(ar, axial, rad_lo, rad_hi, lo, hi);
            let s = slanted_line(rad_lo, rad_hi, lo, hi);
            &&& !r.nan()
            &&& (num(r) - s.y) * s.along == (num(axial) - s.x) * s.across
        }),
{
    lemma_constants();
    let axial: Scalar = decomposed(ar, pos, center, axis).0;
    let da: Scalar = difference(ar, hi, lo);
    let u: Scalar = difference(ar, axial, lo);
    let w: Scalar = quotient(ar, u, da);
    let (x, l): (real, real) = (num(u), num(da));
    lemma_absolute(da);
    lemma_divided(x, l);
    let f: real = num(w);
    assert(0real <= f <= 1real) by {
        if f < 0real {
            assert(f * l < 0real) by (nonlinear_arith)
                requires
                    f < 0real,
                    l > 0real,
            ;
        }
        if f > 1real {
            assert(f * l > l) by (nonlinear_arith)
                requires
                    f > 1real,
                    l > 0real,
            ;
        }
    }
    lemma_order(w, Scalar::zero());
    lemma_order(Scalar::one(), w);
    let e: real = num(rad_hi) - num(rad_lo);
    lemma_mul_order(f, e, l);
    lemma_mul_order(f, l, e);
    lemma_mul_order(e, l, l);
    assert((f * e) * l == (f * l) * e);
}

/// The closest point of a cone from inside: the normal is a unit vector, the position
/// is the point plus the distance along the normal, the point lies on the surface, no
/// point of the surface is closer, and the distance is negative or nothing.
#[verifier::rlimit(60)]
pub proof fn cone_point_is_closest_inside<F: Fn(Op, Scalar, Scalar, Scalar) -> Scalar>(
    ar: F,
    pos: Vec3,
    center: [Scalar; 2],
    axis: Axis,
    rad_lo: Scalar,
    rad_hi: Scalar,
    lo: Scalar,
    hi: Scalar,
    q: Point,
    place: real,
)
    requires
        exact_frustum(ar, pos, center, axis, rad_lo, rad_hi, lo, hi),
        num(rad_lo) > 0real,
        num(rad_hi) > 0real,
        ({
            let (axial, d0, d1) = decomposed(ar, pos, center, axis);
            axial.at_least(lo) && hi.at_least(axial) && cone_radius_between(
                ar,
                axial,
                rad_lo,
                rad_hi,
                lo,
                hi,
            ).at_least(root(ar, squares(ar, d0, d1)))
        }),
        on_cone(q, slanted_line(rad_lo, rad_hi, lo, hi), place),
    ensures
        ({
            let r = closest_on_cone(ar, pos, center, axis, rad_lo, rad_hi, lo, hi);
            let n = turned(r.normal, axis);
            let at = seen(r.point, center, axis);
            let (p, t) = (seen(pos, center, axis), num(r.distance));
            &&& length_squared(n) == 1real
            &&& p.x == at.x + t * n.x && p.y == at.y + t * n.y && p.z == at.z + t * n.z
            &&& exists|w: real| #[trigger]
                on_cone(at, slanted_line(rad_lo, rad_hi, lo, hi), w)
            &&& apart(p, q) >= t * t
            &&& t <= 0real
        }),
{
    lemma_constants();
    let (axial, d0, d1): (Scalar, Scalar, Scalar) = decomposed(ar, pos, center, axis);
    let word: Scalar = root(ar, squares(ar, d0, d1));
    let i: Inner = lemma_slanted(ar, pos, center, axis, rad_lo, rad_hi, lo, hi);
    let s: Segment = slanted_line(rad_lo, rad_hi, lo, hi);
    let p: Point = seen(pos, center, axis);
    lemma_order(axial, lo);
    lemma_order(hi, axial);
    lemma_width(ar, pos, center, axis, rad_lo, rad_hi, lo, hi);
    let width: Scalar = cone_radius_between(ar, axial, rad_lo, rad_hi, lo, hi);
    lemma_order(width, word);
    assert((i.b - s.y) * s.along <= (num(width) - s.y) * s.along) by {
        lemma_grow_factor(s.along, i.b - s.y, num(width) - s.y);
        lemma_mul_order(s.along, i.b - s.y, 1real);
        lemma_mul_order(s.along, num(width) - s.y, 1real);
    }
    let (na, nr): (real, real) = (-(s.across / i.len), s.along / i.len);
    let (x, y): (real, real) = (
        i.a - (s.x + i.t * s.along),
        i.b - (s.y + i.t * s.across),
    );
    let k: real = x * na + y * nr;
    let between: bool = 0real <= i.foot <= 1real;
    if between {
        lemma_signed_distance(s, i.a, i.b, i.t, i.len);
        lemma_inside_slant(s, i.a, i.b, k, i.len, i.slant);
    } else {
        lemma_foot_beyond(s, i.a, i.b, i.foot, i.slant);
    }
    let (slant_point, slant_normal, slant): (Vec3, Vec3, Scalar) = slanted_candidate(
        ar,
        pos,
        center,
        axis,
        rad_lo,
        rad_hi,
        lo,
        hi,
    );
    let d_lo: Scalar = difference(ar, axial, lo);
    let d_hi: Scalar = difference(ar, hi, axial);
    lemma_order(d_lo, slant);
    lemma_order(d_hi, slant);
    lemma_order(d_hi, d_lo);
    lemma_negated(slant);
    lemma_negated(d_lo);
    lemma_negated(d_hi);
    lemma_order(word, Scalar::zero());
    lemma_order(word, rad_lo);
    lemma_order(word, rad_hi);
    lemma_order(rad_lo, rad_lo);
    lemma_order(rad_hi, rad_hi);
    lemma_order(rad_lo, word);
    lemma_order(rad_hi, word);
    let r: SurfaceResult = closest_on_cone(ar, pos, center, axis, rad_lo, rad_hi, lo, hi);
    let t: real = num(r.distance);
    let (a, b): (real, real) = (num(d_lo), num(d_hi));
    let at: Point = seen(r.point, center, axis);
    let n: Point = turned(r.normal, axis);
    assert(0real * 0real == 0real && 1real * 1real == 1real && (-1real) * (-1real) == 1real);
    assert(t * 0real == 0real && t * 1real == t && t * (-1real) == -t);
    let least: real = -t;
    assert(least <= a && least <= b && least <= i.slant && least >= 0real);
    if a >= i.slant && b >= i.slant {
        assert(between);
        assert(t == k);
        assert(at == Point {
            x: s.x + i.t * s.along,
            y: i.n0 * (s.y + i.t * s.across),
            z: i.n1 * (s.y + i.t * s.across),
        });
        assert(n == Point { x: na, y: nr * i.n0, z: nr * i.n1 });
        lemma_slanted_result(i.n0, i.n1, i.b, s.y + i.t * s.across, k, na, nr);
        assert(on_cone(at, s, i.t));
    } else if b >= a {
        assert(i.b <= s.y);
        lemma_end_result(i.n0, i.n1, i.b, s.y);
        assert(at == Point { x: s.x, y: i.n0 * i.b, z: i.n1 * i.b });
        assert(on_cone(at, s, 0real));
    } else {
        assert(i.b <= s.y + s.across);
        lemma_end_result(i.n0, i.n1, i.b, s.y + s.across);
        assert(at == Point { x: s.x + s.along, y: i.n0 * i.b, z: i.n1 * i.b });
        assert(on_cone(at, s, 1real));
    }
    // No point of the surface is closer.
    lemma_square_order(least, a);
    lemma_square_order(least, b);
    lemma_square_order(least, i.slant);
    assert((-least) * (-least) == least * least) by (nonlinear_arith);
    assert((-b) * (-b) == b * b) by (nonlinear_arith);
    lemma_natural_square(p.x - q.x);
    lemma_natural_square(p.y - q.y);
    lemma_natural_square(p.z - q.z);
    if q.x == s.x {
        assert(p.x - q.x == a);
    } else if q.x == s.x + s.along {
        assert(p.x - q.x == -b);
    } else {
        lemma_between_radii(s.y, s.across, place);
        lemma_slanted_bound(i, p, q, place);
    }
}

/// Between two positive radii the radius is positive.
proof fn lemma_between_radii(y: real, d: real, w: real)
    requires
        y > 0real,
        y + d > 0real,
        0real <= w <= 1real,
    ensures
        y + w * d > 0real,
{
    if d >= 0real {
        assert(w * d >= 0real) by (nonlinear_arith)
            requires
                w >= 0real,
                d >= 0real,
        ;
    } else {
        assert(w * d >= d) by (nonlinear_arith)
            requires
                w <= 1real,
                d < 0real,
        ;
    }
}

/// The position is the foot plus the distance along the normal.
proof fn lemma_slanted_result(
    n0: real,
    n1: real,
    b: real,
    foot: real,
    k: real,
    na: real,
    nr: real,
)
    requires
        n0 * n0 + n1 * n1 == 1real,
        na * na + nr * nr == 1real,
        b - foot == k * nr,
    ensures
        length_squared(Point { x: na, y: nr * n0, z: nr * n1 }) == 1real,
        b * n0 == n0 * foot + k * (nr * n0),
        b * n1 == n1 * foot + k * (nr * n1),
        (n0 * foot) * (n0 * foot) + (n1 * foot) * (n1 * foot) == foot * foot,
{
    assert((nr * n0) * (nr * n0) == (nr * nr) * (n0 * n0)) by (nonlinear_arith);
    assert((nr * n1) * (nr * n1) == (nr * nr) * (n1 * n1)) by (nonlinear_arith);
    lemma_mul_add(nr * nr, n0 * n0, n1 * n1);
    assert((nr * nr) * 1real == nr * nr);
    lemma_mul_order(k, nr, n0);
    lemma_mul_order(k, nr, n1);
    lemma_mul_add(n0, foot, k * nr);
    lemma_mul_add(n1, foot, k * nr);
    lemma_mul_order(n0, foot, foot);
    lemma_mul_order(n1, foot, foot);
    assert(b == foot + k * nr);
    lemma_end_result(n0, n1, foot, foot);
}

/// The squares of a multiple of a direction.
proof fn lemma_end_result(n0: real, n1: real, b: real, most: real)
    requires
        n0 * n0 + n1 * n1 == 1real,
    ensures
        (n0 * b) * (n0 * b) + (n1 * b) * (n1 * b) == b * b,
        0real <= b <= most ==> b * b <= most * most,
        n0 * b == b * n0,
        n1 * b == b * n1,
{
    assert((n0 * b) * (n0 * b) == (n0 * n0) * (b * b)) by (nonlinear_arith);
    assert((n1 * b) * (n1 * b) == (n1 * n1) * (b * b)) by (nonlinear_arith);
    lemma_mul_add(b * b, n0 * n0, n1 * n1);
    assert(1real * (b * b) == b * b);
    lemma_mul_order(n0, b, b);
    lemma_mul_order(n1, b, b);
    if 0real <= b <= most {
        lemma_square_order(b, most);
    }
}

/// The region contains a position exactly where the closest point is sought from
/// inside.
pub proof fn cone_sides_agree<F: Fn(Op, Scalar, Scalar, Scalar) -> Scalar>(
    ar: F,
    pos: Vec3,
    center: [Scalar; 2],
    axis: Axis,
    rad_lo: Scalar,
    rad_hi: Scalar,
    lo: Scalar,
    hi: Scalar,
)
    requires
        exact_frustum(ar, pos, center, axis, rad_lo, rad_hi, lo, hi),
        tiny().below(difference(ar, hi, lo).absolute()),
        num(rad_lo) > 0real,
        num(rad_hi) > 0real,
        ({
            let axial = decomposed(ar, pos, center, axis).0;
            let r = cone_radius_between(ar, axial, rad_lo, rad_hi, lo, hi);
            exact_product(ar, r, r)
        }),
    ensures
        ({
            let (axial, d0, d1) = decomposed(ar, pos, center, axis);
            inside(ar, Region::Cone { center, axis, rad_lo, rad_hi, lo, hi }, pos)
                <==> axial.at_least(lo) && hi.at_least(axial) && cone_radius_between(
                ar,
                axial,
                rad_lo,
                rad_hi,
                lo,
                hi,
            ).at_least(root(ar, squares(ar, d0, d1)))
        }),
{
    lemma_constants();
    let (axial, d0, d1): (Scalar, Scalar, Scalar) = decomposed(ar, pos, center, axis);
    let radial: Scalar = root(ar, squares(ar, d0, d1));
    let da: Scalar = difference(ar, hi, lo);
    lemma_order(axial, lo);
    lemma_order(hi, axial);
    if axial.at_least(lo) && hi.at_least(axial) {
        let u: Scalar = difference(ar, axial, lo);
        let w: Scalar = quotient(ar, u, da);
        let (x, l, f): (real, real, real) = (num(u), num(da), num(w));
        lemma_divided(x, l);
        lemma_foot_place(f, l);
        lemma_order(w, Scalar::zero());
        lemma_order(Scalar::one(), w);
        assert(w.clamped(Scalar::zero(), Scalar::one()) == w);
        let r: Scalar = cone_radius_between(ar, axial, rad_lo, rad_hi, lo, hi);
        assert(r == cone_radius(ar, axial, rad_lo, rad_hi, lo, hi));
        lemma_between_radii(num(rad_lo), num(rad_hi) - num(rad_lo), f);
        lemma_order(r, radial);
        lemma_order(product(ar, r, r), squares(ar, d0, d1));
        lemma_square_order(num(radial), num(r));
    }
}

/// The point lies in the cone or on its surface.
pub open spec fn in_cone(q: Point, s: Segment) -> bool {
    let most = (q.x - s.x) * s.across + s.y * s.along;
    &&& s.x <= q.x <= s.x + s.along
    &&& most >= 0real
    &&& (q.y * q.y + q.z * q.z) * (s.along * s.along) <= most * most
}

/// A place from which no place of the cone is nearer than `v` lies behind the line
/// through `v` across the direction to it.
pub open spec fn behind(a: real, b: real, x: real, y: real, u: real, v: real) -> bool {
    (a - u) * (x - u) + (b - v) * (y - v) <= 0real
}

proof fn lemma_behind_is_farther(a: real, b: real, x: real, y: real, u: real, v: real)
    requires
        behind(a, b, x, y, u, v),
    ensures
        (a - x) * (a - x) + (b - y) * (b - y) >= (a - u) * (a - u) + (b - v) * (b - v),
{
    let (p, q): (real, real) = (a - u, x - u);
    let (r, w): (real, real) = (b - v, y - v);
    lemma_square_of_sum(p, -q);
    lemma_square_of_sum(r, -w);
    assert(p * (-q) == -(p * q)) by (nonlinear_arith);
    assert(r * (-w) == -(r * w)) by (nonlinear_arith);
    assert((-q) * (-q) == q * q) by (nonlinear_arith);
    assert((-w) * (-w) == w * w) by (nonlinear_arith);
    lemma_natural_square(q);
    lemma_natural_square(w);
    assert(a - x == p + (-q) && b - y == r + (-w));
}

/// A place at an end: from beyond that end, at a height within the radius there,
/// nothing of the cone is nearer than the place straight ahead.
proof fn lemma_ahead(a: real, b: real, end: real, x: real, y: real)
    requires
        a <= end <= x || x <= end <= a,
    ensures
        behind(a, b, x, y, end, b),
{
    let (p, q): (real, real) = (a - end, x - end);
    assert(p * q <= 0real) by (nonlinear_arith)
        requires
            p <= 0real && q >= 0real || p >= 0real && q <= 0real,
    ;
    let w: real = y - b;
    assert(0real * w == 0real);
}

/// The lower end of the slanted line is the nearest place for what lies before it.
proof fn lemma_at_corner(u: real, v: real, along: real, across: real, x: real, y: real)
    requires
        along > 0real,
        v >= 0real,
        (u * along + v * across) * x <= 0real,
        y * along <= x * across,
    ensures
        u * x + v * y <= 0real,
{
    // (u x + v y) along <= x (u along + v across)
    let z: real = u * x + v * y;
    assert(v * (y * along) <= v * (x * across)) by (nonlinear_arith)
        requires
            v >= 0real,
            y * along <= x * across,
    ;
    lemma_mul_add(along, u * x, v * y);
    assert((u * x) * along == (u * along) * x) by (nonlinear_arith);
    assert((v * y) * along == v * (y * along)) by (nonlinear_arith);
    assert(v * (x * across) == (v * across) * x) by (nonlinear_arith);
    lemma_mul_add(x, u * along, v * across);
    assert(z * along <= 0real);
    if z > 0real {
        assert(z * along > 0real) by (nonlinear_arith)
            requires
                z > 0real,
                along > 0real,
        ;
    }
}

proof fn lemma_signs(p: real, q: real)
    ensures
        p > 0real && q > 0real ==> p * q > 0real,
        p < 0real && q < 0real ==> p * q > 0real,
        p >= 0real && q >= 0real ==> p * q >= 0real,
        p <= 0real && q <= 0real ==> p * q >= 0real,
        p >= 0real && q <= 0real ==> p * q <= 0real,
        p <= 0real && q >= 0real ==> p * q <= 0real,
        p > 0real && q < 0real ==> p * q < 0real,
        p < 0real && q > 0real ==> p * q < 0real,
{
    if p > 0real && q > 0real {
        assert(p * q > 0real) by (nonlinear_arith)
            requires
                p > 0real,
                q > 0real,
        ;
    } else if p < 0real && q < 0real {
        assert(p * q > 0real) by (nonlinear_arith)
            requires
                p < 0real,
                q < 0real,
        ;
    } else if p > 0real && q < 0real {
        assert(p * q < 0real) by (nonlinear_arith)
            requires
                p > 0real,
                q < 0real,
        ;
    } else if p < 0real && q > 0real {
        assert(p * q < 0real) by (nonlinear_arith)
            requires
                p < 0real,
                q > 0real,
        ;
    } else if p == 0real {
        assert(0real * q == 0real);
    } else {
        assert(p * 0real == 0real);
    }
}

/// The place relative to the upper end of the slanted line.
proof fn lemma_from_the_top(s: Segment, a: real, b: real)
    ensures
        ({
            let (u, v) = (a - s.x, b - s.y);
            let (f, g) = (u - s.along, v - s.across);
            &&& v * s.along - u * s.across == g * s.along - f * s.across
            &&& u * s.along + v * s.across == f * s.along + g * s.across + s.size()
        }),
{
    let (u, v): (real, real) = (a - s.x, b - s.y);
    let (f, g): (real, real) = (u - s.along, v - s.across);
    let (p, q): (real, real) = (s.along, s.across);
    assert(u == f + p && v == g + q);
    lemma_mul_add(p, g, q);
    lemma_mul_add(q, f, p);
    lemma_mul_add(p, f, p);
    lemma_mul_add(q, g, q);
    lemma_mul_order(p, q, q);
}

/// From outside a cone, above or beyond the slanted line between its ends: a place
/// whose foot lies between the ends does not lie below the line.
proof fn lemma_above_the_line(s: Segment, a: real, b: real, foot: real)
    requires
        s.along > 0real,
        foot * s.size() == (a - s.x) * s.along + (b - s.y) * s.across,
        0real <= foot <= 1real,
        !(s.x <= a <= s.x + s.along && (b - s.y) * s.along <= (a - s.x) * s.across),
        !(a < s.x && b <= s.y),
        !(a > s.x + s.along && b <= s.y + s.across),
    ensures
        (b - s.y) * s.along >= (a - s.x) * s.across,
{
    let (u, v): (real, real) = (a - s.x, b - s.y);
    let (f, g): (real, real) = (u - s.along, v - s.across);
    let (p, q): (real, real) = (s.along, s.across);
    lemma_from_the_top(s, a, b);
    lemma_natural_square(q);
    lemma_signs(p, p);
    lemma_signs(foot, s.size());
    assert(foot * s.size() <= s.size()) by (nonlinear_arith)
        requires
            foot <= 1real,
            s.size() > 0real,
    ;
    if v * p < u * q {
        if a < s.x {
            lemma_signs(v, p);
            lemma_signs(u, q);
            assert(q < 0real);
            lemma_signs(u, p);
            lemma_signs(v, q);
            assert(false);
        } else {
            assert(a > s.x + p);
            lemma_signs(g, p);
            lemma_signs(f, q);
            assert(q > 0real);
            lemma_signs(f, p);
            lemma_signs(g, q);
            assert(false);
        }
    }
}

/// From outside a cone one of the candidates is at least as close as any place of
/// the cone: the closest place of the slanted line, or that of an end.
proof fn lemma_some_candidate(
    s: Segment,
    a: real,
    b: real,
    foot: real,
    len: real,
    x: real,
    y: real,
)
    requires
        s.along > 0real,
        len > 0real,
        len * len == s.size(),
        foot * s.size() == (a - s.x) * s.along + (b - s.y) * s.across,
        !(s.x <= a <= s.x + s.along && (b - s.y) * s.along <= (a - s.x) * s.across),
        s.x <= x <= s.x + s.along,
        (y - s.y) * s.along <= (x - s.x) * s.across,
    ensures
        ({
            let t = brought(foot, 0real, 1real);
            let high = s.y + s.across;
            ||| behind(a, b, x, y, s.x + t * s.along, s.y + t * s.across)
            ||| b <= s.y && behind(a, b, x, y, s.x, b)
            ||| b <= high && behind(a, b, x, y, s.x + s.along, b)
        }),
{
    let t: real = brought(foot, 0real, 1real);
    let (p, q): (real, real) = (s.along, s.across);
    let (u, v): (real, real) = (a - s.x, b - s.y);
    let (f, g): (real, real) = (u - p, v - q);
    let (m, n): (real, real) = (x - s.x, y - s.y);
    lemma_natural_square(q);
    lemma_signs(p, p);
    lemma_from_the_top(s, a, b);
    assert(0real * p == 0real && 0real * q == 0real && 1real * p == p && 1real * q == q);
    if a < s.x && b <= s.y {
        lemma_ahead(a, b, s.x, x, y);
    } else if a > s.x + p && b <= s.y + q {
        lemma_ahead(a, b, s.x + p, x, y);
    } else if 0real <= foot <= 1real {
        lemma_above_the_line(s, a, b, foot);
        lemma_signed_distance(s, a, b, foot, len);
        let (na, nr): (real, real) = (-(q / len), p / len);
        let (c, d): (real, real) = (a - (s.x + foot * p), b - (s.y + foot * q));
        let k: real = c * na + d * nr;
        if k < 0real {
            lemma_signs(k, len);
        }
        let (e, h): (real, real) = (x - (s.x + foot * p), y - (s.y + foot * q));
        lemma_below_the_line(s, m, n, foot, len);
        let w: real = na * e + nr * h;
        lemma_signs(k, w);
        lemma_mul_order(k, na, e);
        lemma_mul_order(k, nr, h);
        lemma_mul_add(k, na * e, nr * h);
    } else if foot < 0real {
        lemma_signs(foot, s.size());
        assert(u * p + v * q < 0real);
        if v < 0real {
            assert(u >= 0real);
            lemma_signs(u, p);
            lemma_signs(v, q);
            assert(q > 0real);
            lemma_signs(v, p);
            lemma_signs(u, q);
            assert(false);
        }
        lemma_signs(u * p + v * q, m);
        lemma_at_corner(u, v, p, q, m, n);
    } else {
        assert(foot > 1real);
        assert(foot * s.size() > s.size()) by (nonlinear_arith)
            requires
                foot > 1real,
                s.size() > 0real,
        ;
        assert(f * p + g * q > 0real);
        let (mm, nn): (real, real) = (m - p, n - q);
        lemma_from_the_top(s, x, y);
        if g < 0real {
            assert(f <= 0real);
            lemma_signs(f, p);
            lemma_signs(g, q);
            assert(q < 0real);
            lemma_signs(g, p);
            lemma_signs(f, q);
            assert(false);
        }
        lemma_signs(f * p + g * q, mm);
        lemma_at_corner(f, g, p, q, mm, nn);
    }
}

/// What lies in the cone lies below the slanted line, seen from the foot.
proof fn lemma_below_the_line(s: Segment, m: real, n: real, foot: real, len: real)
    requires
        s.along > 0real,
        len > 0real,
        n * s.along <= m * s.across,
    ensures
        (-(s.across / len)) * (m - foot * s.along) + (s.along / len) * (n - foot * s.across) <= 0real,
{
    let (p, q): (real, real) = (s.along, s.across);
    let (c, d): (real, real) = (q / len, p / len);
    let (e, h): (real, real) = (m - foot * p, n - foot * q);
    lemma_divided(q, len);
    lemma_divided(p, len);
    let w: real = (-c) * e + d * h;
    lemma_mul_add(len, (-c) * e, d * h);
    assert(((-c) * e) * len == -((c * len) * e)) by (nonlinear_arith);
    assert((d * h) * len == (d * len) * h) by (nonlinear_arith);
    assert(w * len == p * h - q * e);
    assert(p * h == n * p - (foot * q) * p) by (nonlinear_arith)
        requires
            h == n - foot * q,
    ;
    assert(q * e == m * q - (foot * p) * q) by (nonlinear_arith)
        requires
            e == m - foot * p,
    ;
    assert((foot * q) * p == (foot * p) * q) by (nonlinear_arith);
    if w > 0real {
        lemma_signs(w, len);
    }
}

/// A point of the cone, seen in the half plane of the position: it lies in the cone
/// there too, and is no nearer to the position than its place there.
proof fn lemma_turned_into_plane(p: Point, q: Point, b: real, n0: real, n1: real, s: Segment)
    requires
        n0 * n0 + n1 * n1 == 1real,
        p.y == b * n0,
        p.z == b * n1,
        s.along > 0real,
        in_cone(q, s),
    ensures
        ({
            let y = n0 * q.y + n1 * q.z;
            &&& (y - s.y) * s.along <= (q.x - s.x) * s.across
            &&& apart(p, q) >= (p.x - q.x) * (p.x - q.x) + (b - y) * (b - y)
        }),
{
    let y: real = n0 * q.y + n1 * q.z;
    let size: real = q.y * q.y + q.z * q.z;
    let n: Point = Point { x: 0real, y: n0, z: n1 };
    let flat: Point = Point { x: 0real, y: q.y, z: q.z };
    assert(0real * 0real == 0real && b * 0real == 0real && y * 0real == 0real);
    lemma_apart_along(y, n, flat);
    lemma_natural_square(y * n0 - q.y);
    lemma_natural_square(y * n1 - q.z);
    assert((y * y) * 1real == y * y && (b * b) * 1real == b * b);
    assert(size >= y * y);
    lemma_apart_along(b, n, flat);
    lemma_square_of_difference(b, y);
    let most: real = (q.x - s.x) * s.across + s.y * s.along;
    let z: real = y * s.along;
    assert(z * z == (y * y) * (s.along * s.along)) by (nonlinear_arith)
        requires
            z == y * s.along,
    ;
    lemma_natural_square(s.along);
    lemma_grow_factor(s.along * s.along, y * y, size);
    lemma_mul_order(s.along * s.along, y * y, 1real);
    lemma_mul_order(s.along * s.along, size, 1real);
    assert(z * z <= most * most);
    if z > most {
        lemma_square_order(z, most);
        assert(false);
    }
    lemma_mul_add(s.along, y, -s.y);
    assert((-s.y) * s.along == -(s.y * s.along)) by (nonlinear_arith);
    assert(y - s.y == y + (-s.y));
}

/// The closest point of a cone from outside: the normal is a unit vector, the position
/// is the point plus the distance along the normal, the point lies on the surface and is
/// no farther than any point of the cone, and the distance is positive.
#[verifier::rlimit(60)]
pub proof fn cone_point_is_closest_outside<F: Fn(Op, Scalar, Scalar, Scalar) -> Scalar>(
    ar: F,
    pos: Vec3,
    center: [Scalar; 2],
    axis: Axis,
    rad_lo: Scalar,
    rad_hi: Scalar,
    lo: Scalar,
    hi: Scalar,
    q: Point,
)
    requires
        exact_frustum(ar, pos, center, axis, rad_lo, rad_hi, lo, hi),
        exact_distance(ar, pos, cone_cap(ar, pos, center, axis, rad_lo, lo)),
        exact_distance(ar, pos, cone_cap(ar, pos, center, axis, rad_hi, hi)),
        exact_outside(
            ar,
            pos,
            closest_on_cone(ar, pos, center, axis, rad_lo, rad_hi, lo, hi).point,
        ),
        num(rad_lo) > 0real,
        num(rad_hi) > 0real,
        ({
            let (axial, d0, d1) = decomposed(ar, pos, center, axis);
            !(axial.at_least(lo) && hi.at_least(axial) && cone_radius_between(
                ar,
                axial,
                rad_lo,
                rad_hi,
                lo,
                hi,
            ).at_least(root(ar, squares(ar, d0, d1))))
        }),
        in_cone(q, slanted_line(rad_lo, rad_hi, lo, hi)),
    ensures
        ({
            let r = closest_on_cone(ar, pos, center, axis, rad_lo, rad_hi, lo, hi);
            let n = point_of(r.normal);
            let at = point_of(r.point);
            let (p, t) = (point_of(pos), num(r.distance));
            &&& length_squared(n) == 1real
            &&& p.x == at.x + t * n.x && p.y == at.y + t * n.y && p.z == at.z + t * n.z
            &&& exists|w: real| #[trigger]
                on_cone(seen(r.point, center, axis), slanted_line(rad_lo, rad_hi, lo, hi), w)
            &&& apart(seen(pos, center, axis), q) >= t * t
            &&& t > 0real
        }),
{
    lemma_constants();
    let (axial, d0, d1): (Scalar, Scalar, Scalar) = decomposed(ar, pos, center, axis);
    let word: Scalar = root(ar, squares(ar, d0, d1));
    let i: Inner = lemma_slanted(ar, pos, center, axis, rad_lo, rad_hi, lo, hi);
    let s: Segment = slanted_line(rad_lo, rad_hi, lo, hi);
    let p: Point = seen(pos, center, axis);
    lemma_order(axial, lo);
    lemma_order(hi, axial);
    if s.x <= i.a <= s.x + s.along {
        lemma_width(ar, pos, center, axis, rad_lo, rad_hi, lo, hi);
        let width: Scalar = cone_radius_between(ar, axial, rad_lo, rad_hi, lo, hi);
        lemma_order(width, word);
        lemma_mul_order(s.along, i.b - s.y, 1real);
        lemma_mul_order(s.along, num(width) - s.y, 1real);
        if (i.b - s.y) * s.along <= (i.a - s.x) * s.across {
            lemma_drop_factor(s.along, i.b - s.y, num(width) - s.y);
        }
    }
    let y: real = i.n0 * q.y + i.n1 * q.z;
    lemma_turned_into_plane(p, q, i.b, i.n0, i.n1, s);
    lemma_some_candidate(s, i.a, i.b, i.foot, i.len, q.x, y);
    let (u, v): (real, real) = (s.x + i.t * s.along, s.y + i.t * s.across);
    if behind(i.a, i.b, q.x, y, u, v) {
        lemma_behind_is_farther(i.a, i.b, q.x, y, u, v);
    }
    if behind(i.a, i.b, q.x, y, s.x, i.b) {
        lemma_behind_is_farther(i.a, i.b, q.x, y, s.x, i.b);
    }
    if behind(i.a, i.b, q.x, y, s.x + s.along, i.b) {
        lemma_behind_is_farther(i.a, i.b, q.x, y, s.x + s.along, i.b);
    }
    let (slant_point, slant_normal, slant): (Vec3, Vec3, Scalar) = slanted_candidate(
        ar,
        pos,
        center,
        axis,
        rad_lo,
        rad_hi,
        lo,
        hi,
    );
    let lo_point: Vec3 = cone_cap(ar, pos, center, axis, rad_lo, lo);
    let hi_point: Vec3 = cone_cap(ar, pos, center, axis, rad_hi, hi);
    let lo_dist: Scalar = norm_of(ar, minus_of(ar, pos, lo_point));
    let hi_dist: Scalar = norm_of(ar, minus_of(ar, pos, hi_point));
    lemma_order(word, Scalar::zero());
    lemma_order(word, rad_lo);
    lemma_order(word, rad_hi);
    lemma_order(rad_lo, rad_lo);
    lemma_order(rad_hi, rad_hi);
    lemma_order(rad_lo, word);
    lemma_order(rad_hi, word);
    let cap_lo: real = if i.b < s.y {
        i.b
    } else {
        s.y
    };
    let high: real = s.y + s.across;
    let cap_hi: real = if i.b < high {
        i.b
    } else {
        high
    };
    assert(seen(lo_point, center, axis) == Point { x: s.x, y: i.n0 * cap_lo, z: i.n1 * cap_lo });
    assert(seen(hi_point, center, axis) == Point {
        x: s.x + s.along,
        y: i.n0 * cap_hi,
        z: i.n1 * cap_hi,
    });
    lemma_distance(ar, pos, lo_point, center, axis);
    lemma_distance(ar, pos, hi_point, center, axis);
    lemma_apart_radial(i.a, s.x, i.b, cap_lo, i.n0, i.n1);
    lemma_apart_radial(i.a, s.x + s.along, i.b, cap_hi, i.n0, i.n1);
    lemma_apart_radial(i.a, u, i.b, v, i.n0, i.n1);
    let chosen: Seq<Scalar> = seq![slant, lo_dist, hi_dist];
    lemma_least_of_three(chosen);
    let best: int = least_at(chosen, 3);
    let least: real = num(chosen[best]);
    lemma_square_order(least, num(slant));
    lemma_square_order(least, num(lo_dist));
    lemma_square_order(least, num(hi_dist));
    let (at, fallback): (Vec3, Vec3) = if best == 0 {
        (slant_point, slant_normal)
    } else if best == 1 {
        (lo_point, along_axis(Scalar::minus_one(), Scalar::zero(), Scalar::zero(), axis))
    } else {
        (hi_point, along_axis(Scalar::one(), Scalar::zero(), Scalar::zero(), axis))
    };
    assert(closest_on_cone(ar, pos, center, axis, rad_lo, rad_hi, lo, hi) == from_outside(
        ar,
        pos,
        at,
        fallback,
    ));
    outside_result_is_metric(ar, pos, at, fallback);
    lemma_seen_apart(pos, at, center, axis);
    assert(apart(p, seen(at, center, axis)) == least * least);
    assert(0real * 0real == 0real);
    lemma_end_result(i.n0, i.n1, v, v);
    lemma_end_result(i.n0, i.n1, cap_lo, s.y);
    lemma_end_result(i.n0, i.n1, cap_hi, high);
    let surface: Point = seen(at, center, axis);
    if best == 0 {
        assert(on_cone(surface, s, i.t));
    } else if best == 1 {
        assert(on_cone(surface, s, 0real));
    } else {
        assert(on_cone(surface, s, 1real));
    }
}

} // verus!

//! Laws of the box and of the motion that hold where no operation rounds.

use crate::atom::Record;
use crate::bond::lemma_int_word;
use crate::deform::remapped;
use crate::domain::{is_part, wrapped, Domain, DomainConfig};
use crate::exchange::{nearest_image, side};
use crate::exact::{
    exact_difference, exact_product, exact_quotient, exact_sum, lemma_constants, lemma_divided, lemma_mul_add,
    lemma_mul_order, lemma_negated, lemma_order, lemma_whole, num,
};
use crate::scalar::{difference, int_word, product, quotient, sum, Op, Scalar, Vec3};
use crate::verlet::{drifted, half_step, kicked};
use vstd::prelude::*;

verus! {

/// The parts tile the box up to its outer faces: the first part begins where the
/// box begins, and the last ends where it ends.
pub proof fn parts_end_at_the_box<F: Fn(Op, Scalar, Scalar, Scalar) -> Scalar>(
    ar: F,
    config: DomainConfig,
    decomp: [i32; 3],
    first: [i32; 3],
    last: [i32; 3],
    a: Domain,
    b: Domain,
    d: int,
)
    requires
        is_part(ar, config, decomp, first, a),
        is_part(ar, config, decomp, last, b),
        0 <= d < 3,
        decomp[d] >= 1,
        first[d] == 0,
        last[d] == decomp[d] - 1,
        ({
            let (low, high, size, length) = (
                a.boundaries_low[d],
                a.boundaries_high[d],
                a.size[d],
                a.sub_length[d],
            );
            let n = int_word(decomp[d] as int);
            &&& exact_difference(ar, high, low)
            &&& exact_quotient(ar, size, n)
            &&& exact_product(ar, length, int_word(0))
            &&& exact_product(ar, length, n)
            &&& exact_sum(ar, low, product(ar, length, int_word(0)))
            &&& exact_sum(ar, low, product(ar, length, n))
        }),
    ensures
        num(a.sub_domain_low[d]) == num(a.boundaries_low[d]),
        num(b.sub_domain_high[d]) == num(b.boundaries_high[d]),
{
    assert(a.sub_length[d] == quotient(ar, a.size[d], int_word(decomp[d] as int)));
    assert(b.sub_length[d] == quotient(ar, b.size[d], int_word(decomp[d] as int)));
    assert(a.boundaries_low[d] == b.boundaries_low[d]);
    assert(a.boundaries_high[d] == b.boundaries_high[d]);
    assert(a.size[d] == difference(ar, a.boundaries_high[d], a.boundaries_low[d]));
    lemma_int_word(0);
    lemma_int_word(decomp[d] as int);
    lemma_whole(int_word(0), 0);
    lemma_whole(int_word(decomp[d] as int), decomp[d] as int);
    let n: real = decomp[d] as int as real;
    let s: real = num(a.size[d]);
    lemma_divided(s, n);
    assert(num(a.sub_length[d]) * 0real == 0real);
}

/// Wrapping a coordinate that left a periodic box by at most one box length brings
/// it back inside, and the unwrapped coordinate, which counts the boxes, is kept.
pub proof fn wrapping_keeps_the_unwrapped_position<F: Fn(Op, Scalar, Scalar, Scalar) -> Scalar>(
    ar: F,
    pos: Scalar,
    low: Scalar,
    size: Scalar,
    image: int,
)
    requires
        !pos.nan() && !low.nan() && !size.nan(),
        num(size) > 0real,
        num(low) - num(size) <= num(pos) < num(low) + num(size) + num(size),
        exact_sum(ar, low, size),
        exact_sum(ar, pos, size),
        exact_difference(ar, pos, size),
    ensures
        ({
            let (x, change) = wrapped(ar, pos, low, size);
            &&& num(low) <= num(x) < num(low) + num(size)
            &&& num(x) + (image + change) as real * num(size) == num(pos) + image as real * num(size)
        }),
{
    lemma_order(pos, low);
    lemma_order(pos, sum(ar, low, size));
    let (x, change): (Scalar, int) = wrapped(ar, pos, low, size);
    let i: real = image as real;
    let c: real = change as real;
    let s: real = num(size);
    lemma_mul_add(s, i, c);
    assert((-1real) * s == -s && 1real * s == s && 0real * s == 0real);
}

/// The nearest image of a displacement is found without rounding.
pub open spec fn exact_image<F: Fn(Op, Scalar, Scalar, Scalar) -> Scalar>(
    ar: F,
    delta: Scalar,
    size: Scalar,
) -> bool {
    &&& exact_product(ar, Scalar::half(), size)
    &&& exact_difference(ar, delta, size)
    &&& exact_sum(ar, delta, size)
}

/// The nearest image in real numbers.
pub proof fn lemma_image<F: Fn(Op, Scalar, Scalar, Scalar) -> Scalar>(
    ar: F,
    delta: Scalar,
    size: Scalar,
)
    requires
        !delta.nan(),
        exact_image(ar, delta, size),
    ensures
        ({
            let (d, l) = (num(delta), num(size));
            let near = nearest_image(ar, delta, size, true);
            &&& !near.nan()
            &&& num(near) == if d + d > l {
                d - l
            } else if d + d < -l {
                d + l
            } else {
                d
            }
        }),
{
    lemma_constants();
    let half: Scalar = product(ar, Scalar::half(), size);
    let (h, l): (real, real) = (num(Scalar::half()), num(size));
    lemma_mul_add(l, h, h);
    assert(1real * l == l);
    lemma_negated(half);
    lemma_order(half, delta);
    lemma_order(delta, half.negated());
}

/// An atom that stays with its process lies in the part of the box that the process
/// owns, where the box is periodic and the part is at most half of it.
pub proof fn kept_atoms_lie_here<F: Fn(Op, Scalar, Scalar, Scalar) -> Scalar>(
    ar: F,
    pos: Scalar,
    low: Scalar,
    high: Scalar,
    box_low: Scalar,
    size: Scalar,
)
    requires
        side(ar, pos, low, high, size, true) == 0,
        num(box_low) <= num(low) < num(high) <= num(box_low) + num(size),
        (num(high) - num(low)) + (num(high) - num(low)) <= num(size),
        num(box_low) <= num(pos) < num(box_low) + num(size),
        exact_difference(ar, pos, low),
        exact_difference(ar, pos, high),
        exact_image(ar, difference(ar, pos, low), size),
        exact_image(ar, difference(ar, pos, high), size),
    ensures
        num(low) <= num(pos) < num(high),
{
    lemma_constants();
    let (a, b): (Scalar, Scalar) = (difference(ar, pos, low), difference(ar, pos, high));
    lemma_image(ar, a, size);
    lemma_image(ar, b, size);
    lemma_order(nearest_image(ar, a, size, true), Scalar::zero());
    lemma_order(nearest_image(ar, b, size, true), Scalar::zero());
}

/// A step under the force `rec.force` along axis `d` rounds nothing.
pub open spec fn exact_step<F: Fn(Op, Scalar, Scalar, Scalar) -> Scalar>(
    ar: F,
    dt: Scalar,
    rec: Record,
    d: int,
) -> bool {
    let h = half_step(ar, dt, rec.inv_mass);
    let kick = product(ar, h, rec.force[d]);
    let mid = sum(ar, rec.vel[d], kick);
    &&& exact_product(ar, Scalar::half(), dt)
    &&& exact_product(ar, product(ar, Scalar::half(), dt), rec.inv_mass)
    &&& exact_product(ar, h, rec.force[d])
    &&& exact_sum(ar, rec.vel[d], kick)
    &&& exact_product(ar, mid, dt)
    &&& exact_sum(ar, rec.pos[d], product(ar, mid, dt))
    &&& exact_sum(ar, mid, kick)
}

/// The record after both halves of a step, the force unchanged between them.
pub open spec fn full_step<F: Fn(Op, Scalar, Scalar, Scalar) -> Scalar>(
    ar: F,
    dt: Scalar,
    rec: Record,
) -> Record {
    let v = kicked(ar, dt, rec);
    let mid = Record { vel: v, pos: drifted(ar, dt, rec.pos, v), ..rec };
    Record { vel: kicked(ar, dt, mid), ..mid }
}

/// One step under a constant force is the exact motion.
pub proof fn one_step_is_exact<F: Fn(Op, Scalar, Scalar, Scalar) -> Scalar>(
    ar: F,
    dt: Scalar,
    rec: Record,
    d: int,
)
    requires
        0 <= d < 3,
        exact_step(ar, dt, rec, d),
    ensures
        ({
            let new = full_step(ar, dt, rec);
            let t = num(dt);
            let a = num(rec.inv_mass) * num(rec.force[d]);
            &&& num(new.vel[d]) == num(rec.vel[d]) + a * t
            &&& 2real * (num(new.pos[d]) - num(rec.pos[d]) - num(rec.vel[d]) * t) == (a * t) * t
        }),
{
    lemma_constants();
    let h: real = num(Scalar::half());
    let t: real = num(dt);
    let m: real = num(rec.inv_mass);
    let f: real = num(rec.force[d]);
    let v: real = num(rec.vel[d]);
    let x: real = num(rec.pos[d]);
    let a: real = m * f;
    let v1: Vec3 = kicked(ar, dt, rec);
    let kick: real = ((h * t) * m) * f;
    assert(num(v1[d]) == v + kick);
    lemma_mul_order(h * t, m, f);
    lemma_mul_add(t, h, h);
    lemma_mul_add(a, h * t, h * t);
    lemma_mul_order(t, a, t);
    assert(kick + kick == a * t);
    lemma_mul_add(t, v, kick);
    lemma_mul_add(t, kick, kick);
    assert(drifted(ar, dt, rec.pos, v1)[d] == sum(ar, rec.pos[d], product(ar, v1[d], dt)));
}

/// The record after `n` steps under the force that it holds.
pub open spec fn steps_on<F: Fn(Op, Scalar, Scalar, Scalar) -> Scalar>(
    ar: F,
    dt: Scalar,
    rec: Record,
    n: nat,
) -> Record
    decreases n,
{
    if n == 0 {
        rec
    } else {
        full_step(ar, dt, steps_on(ar, dt, rec, (n - 1) as nat))
    }
}

/// Under a constant force the motion is exact after any number of steps: the
/// velocity grows evenly with time, and the position by its square.
pub proof fn constant_force_motion_is_exact<F: Fn(Op, Scalar, Scalar, Scalar) -> Scalar>(
    ar: F,
    dt: Scalar,
    rec: Record,
    d: int,
    n: nat,
)
    requires
        0 <= d < 3,
        forall|k: nat| k < n ==> exact_step(ar, dt, #[trigger] steps_on(ar, dt, rec, k), d),
    ensures
        ({
            let new = steps_on(ar, dt, rec, n);
            let time = n as int as real * num(dt);
            let a = num(rec.inv_mass) * num(rec.force[d]);
            &&& new.inv_mass == rec.inv_mass
            &&& new.force == rec.force
            &&& num(new.vel[d]) == num(rec.vel[d]) + a * time
            &&& 2real * (num(new.pos[d]) - num(rec.pos[d]) - num(rec.vel[d]) * time) == (a * time)
                * time
        }),
    decreases n,
{
    let t: real = num(dt);
    let a: real = num(rec.inv_mass) * num(rec.force[d]);
    let v: real = num(rec.vel[d]);
    let x: real = num(rec.pos[d]);
    if n == 0 {
        assert(0real * t == 0real);
        assert(a * 0real == 0real && v * 0real == 0real);
        assert((a * 0real) * 0real == 0real);
    } else {
        let before: nat = (n - 1) as nat;
        constant_force_motion_is_exact(ar, dt, rec, d, before);
        let mid: Record = steps_on(ar, dt, rec, before);
        assert(exact_step(ar, dt, mid, d));
        one_step_is_exact(ar, dt, mid, d);
        let k: real = before as int as real;
        let s: real = k * t;
        let e: real = n as int as real * t;
        lemma_mul_add(t, k, 1real);
        assert(e == s + t);
        lemma_mul_add(a, s, t);
        lemma_mul_add(v, s, t);
        lemma_mul_add(t, v, a * s);
        lemma_mul_add(s + t, a * s, a * t);
        lemma_mul_add(a * s, s, t);
        lemma_mul_add(a * t, s, t);
        lemma_mul_order(a, s, t);
        lemma_mul_order(a, t, s);
        lemma_mul_order(s, t, t);
    }
}

/// A coordinate is moved with the box without rounding.
pub open spec fn exact_remap<F: Fn(Op, Scalar, Scalar, Scalar) -> Scalar>(
    ar: F,
    x: Scalar,
    old_lo: Scalar,
    old_hi: Scalar,
    new_lo: Scalar,
    new_hi: Scalar,
) -> bool {
    let (old_size, new_size) = (difference(ar, old_hi, old_lo), difference(ar, new_hi, new_lo));
    let scale = quotient(ar, new_size, old_size);
    let (old_sum, new_sum) = (sum(ar, old_lo, old_hi), sum(ar, new_lo, new_hi));
    let old_center = product(ar, old_sum, Scalar::half());
    let new_center = product(ar, new_sum, Scalar::half());
    let away = difference(ar, x, old_center);
    &&& exact_difference(ar, old_hi, old_lo) && exact_difference(ar, new_hi, new_lo)
    &&& exact_quotient(ar, new_size, old_size)
    &&& exact_sum(ar, old_lo, old_hi) && exact_sum(ar, new_lo, new_hi)
    &&& exact_product(ar, old_sum, Scalar::half()) && exact_product(ar, new_sum, Scalar::half())
    &&& exact_difference(ar, x, old_center)
    &&& exact_product(ar, away, scale)
    &&& exact_sum(ar, new_center, product(ar, away, scale))
}

/// An atom that is moved with the box keeps its place in the box: its coordinate
/// divides the new length as it divided the old one.
pub proof fn remapped_atoms_keep_their_place<F: Fn(Op, Scalar, Scalar, Scalar) -> Scalar>(
    ar: F,
    x: Scalar,
    old_lo: Scalar,
    old_hi: Scalar,
    new_lo: Scalar,
    new_hi: Scalar,
)
    requires
        exact_remap(ar, x, old_lo, old_hi, new_lo, new_hi),
        num(new_hi) != num(new_lo),
    ensures
        ({
            let new = remapped(ar, x, old_lo, old_hi, new_lo, new_hi);
            (num(new) - num(new_lo)) / (num(new_hi) - num(new_lo)) == (num(x) - num(old_lo)) / (num(
                old_hi,
            ) - num(old_lo))
        }),
{
    lemma_constants();
    let h: real = num(Scalar::half());
    let (a, b): (real, real) = (num(old_lo), num(old_hi));
    let (c, d): (real, real) = (num(new_lo), num(new_hi));
    let (l, m): (real, real) = (b - a, d - c);
    let s: real = m / l;
    let (old_mid, new_mid): (real, real) = ((a + b) * h, (c + d) * h);
    lemma_mul_add(a + b, h, h);
    lemma_mul_add(c + d, h, h);
    assert((a + b) * 1real == a + b && (c + d) * 1real == c + d);
    assert(old_mid + old_mid == a + b && new_mid + new_mid == c + d);
    let x0: real = num(x);
    let u: real = x0 - a;
    // The way from the middle, doubled, is twice the way from the end less the length.
    let away: real = x0 - old_mid;
    lemma_divided(m, l);
    lemma_mul_add(s, away, away);
    lemma_mul_add(s, u, u);
    lemma_mul_add(s, u + u, -l);
    assert((-l) * s == -(s * l)) by (nonlinear_arith);
    assert(away + away == u + u + (-l));
    let new: real = num(remapped(ar, x, old_lo, old_hi, new_lo, new_hi));
    assert(new == new_mid + away * s);
    assert(new - c == u * s);
    // Both quotients are u over the old length.
    assert((u * s) / m == u / l) by {
        lemma_same_quotient(u, s, l, m);
    }
}

proof fn lemma_same_quotient(u: real, s: real, l: real, m: real)
    requires
        l != 0real,
        m != 0real,
        s * l == m,
    ensures
        (u * s) / m == u / l,
{
    let (x, y): (real, real) = ((u * s) / m, u / l);
    lemma_divided(u * s, m);
    lemma_divided(u, l);
    // x m == u s and y l == u, so y m == y (s l) == u s.
    assert(y * (s * l) == (y * l) * s) by (nonlinear_arith);
    assert(x * m == y * m);
    let z: real = x - y;
    assert(z * m == x * m - y * m) by (nonlinear_arith)
        requires
            z == x - y,
    ;
    assert(z * m == 0real ==> z == 0real) by (nonlinear_arith)
        requires
            m != 0real,
    ;
}

} // verus!

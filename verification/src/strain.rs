//! How a box deforms, where no operation rounds.

use crate::bond::lemma_int_word;
use crate::deform::{
    anchored, axis_stepped, collapses, deformed, meaning, new_bounds, stage_steps,
    stepped_coordinate, AxisDeform, AxisDeformDef, DeformState, DeformStyle,
};
use crate::domain::{volume_of, Domain};
use crate::exact::{
    exact_difference, exact_product, exact_quotient, exact_sum, is_num, lemma_constants,
    lemma_divided, lemma_mul_add, lemma_mul_order, lemma_order, lemma_whole, num,
};
use crate::geometry::{lemma_drop_factor, lemma_grow_factor};
use crate::scalar::{
    count_word, difference, int_word, product, quotient, sum, Op, Scalar, Vec3, FRACTION,
};
use vstd::prelude::*;

verus! {

/// A count that fits a number stands for itself.
pub proof fn counted_steps_are_counted<F: Fn(Op, Scalar, Scalar, Scalar) -> Scalar>(ar: F, x: int)
    requires
        0 <= x <= 2 * FRACTION,
    ensures
        is_num(count_word(ar, x), x as real),
{
    lemma_int_word(x);
    lemma_whole(int_word(x), x);
}

/// The middle of an axis is computed without rounding, and the bounds from it.
pub open spec fn exact_middle<F: Fn(Op, Scalar, Scalar, Scalar) -> Scalar>(
    ar: F,
    axis: AxisDeform,
    length: Scalar,
) -> bool {
    let both = sum(ar, axis.lo_0, axis.hi_0);
    let center = product(ar, both, Scalar::half());
    let half = product(ar, length, Scalar::half());
    &&& exact_difference(ar, axis.hi_0, axis.lo_0)
    &&& exact_sum(ar, axis.lo_0, axis.hi_0)
    &&& exact_product(ar, both, Scalar::half())
    &&& exact_product(ar, length, Scalar::half())
    &&& exact_difference(ar, center, half)
    &&& exact_sum(ar, center, half)
}

/// The strain at a rate is computed without rounding.
pub open spec fn exact_strain<F: Fn(Op, Scalar, Scalar, Scalar) -> Scalar>(
    ar: F,
    axis: AxisDeform,
    rate: Scalar,
    dt: Scalar,
    step: int,
) -> bool {
    let strain = product(ar, product(ar, rate, dt), count_word(ar, step));
    let scale = sum(ar, Scalar::one(), strain);
    let l0 = difference(ar, axis.hi_0, axis.lo_0);
    &&& exact_product(ar, rate, dt)
    &&& exact_product(ar, product(ar, rate, dt), count_word(ar, step))
    &&& exact_sum(ar, Scalar::one(), strain)
    &&& exact_product(ar, l0, scale)
    &&& exact_middle(ar, axis, product(ar, l0, scale))
}

/// The growth at a velocity is computed without rounding.
pub open spec fn exact_growth<F: Fn(Op, Scalar, Scalar, Scalar) -> Scalar>(
    ar: F,
    axis: AxisDeform,
    velocity: Scalar,
    dt: Scalar,
    step: int,
) -> bool {
    let delta = product(ar, product(ar, velocity, dt), count_word(ar, step));
    let l0 = difference(ar, axis.hi_0, axis.lo_0);
    &&& exact_product(ar, velocity, dt)
    &&& exact_product(ar, product(ar, velocity, dt), count_word(ar, step))
    &&& exact_sum(ar, l0, delta)
    &&& exact_middle(ar, axis, sum(ar, l0, delta))
}

/// Bounds half a length below and above a middle are a length apart.
proof fn lemma_about_the_middle<F: Fn(Op, Scalar, Scalar, Scalar) -> Scalar>(
    ar: F,
    axis: AxisDeform,
    length: Scalar,
)
    requires
        exact_middle(ar, axis, length),
    ensures
        ({
            let center = product(ar, sum(ar, axis.lo_0, axis.hi_0), Scalar::half());
            let half = product(ar, length, Scalar::half());
            let (lo, hi) = (num(difference(ar, center, half)), num(sum(ar, center, half)));
            &&& hi - lo == num(length)
            &&& lo + hi == num(axis.lo_0) + num(axis.hi_0)
        }),
{
    lemma_constants();
    let h: real = num(Scalar::half());
    let (l, m): (real, real) = (num(length), num(axis.lo_0) + num(axis.hi_0));
    lemma_mul_add(l, h, h);
    lemma_mul_add(m, h, h);
    assert(l * 1real == l && m * 1real == m);
}

/// At a strain rate the length after `step` steps is the initial length times one plus
/// rate, step length and number of steps, about the same middle.
pub proof fn strain_grows_with_the_steps<F: Fn(Op, Scalar, Scalar, Scalar) -> Scalar>(
    ar: F,
    axis: AxisDeform,
    rate: Scalar,
    dt: Scalar,
    step: int,
    total: int,
)
    requires
        axis.style == (DeformStyle::Erate { rate }),
        0 <= step <= 2 * FRACTION,
        exact_strain(ar, axis, rate, dt, step),
    ensures
        ({
            let (lo, hi) = deformed(ar, axis, dt, step, total);
            let l0 = num(axis.hi_0) - num(axis.lo_0);
            &&& num(hi) - num(lo) == l0 * (1real + (num(rate) * num(dt)) * step as real)
            &&& num(lo) + num(hi) == num(axis.lo_0) + num(axis.hi_0)
        }),
{
    counted_steps_are_counted(ar, step);
    lemma_constants();
    let strain: Scalar = product(ar, product(ar, rate, dt), count_word(ar, step));
    let l0: Scalar = difference(ar, axis.hi_0, axis.lo_0);
    lemma_about_the_middle(ar, axis, product(ar, l0, sum(ar, Scalar::one(), strain)));
}

/// At a strain rate every step adds the same to the length.
pub proof fn strain_is_even<F: Fn(Op, Scalar, Scalar, Scalar) -> Scalar>(
    ar: F,
    axis: AxisDeform,
    rate: Scalar,
    dt: Scalar,
    step: int,
    total: int,
)
    requires
        axis.style == (DeformStyle::Erate { rate }),
        0 <= step < 2 * FRACTION,
        exact_strain(ar, axis, rate, dt, step),
        exact_strain(ar, axis, rate, dt, step + 1),
    ensures
        ({
            let (lo, hi) = deformed(ar, axis, dt, step, total);
            let (next_lo, next_hi) = deformed(ar, axis, dt, step + 1, total);
            let l0 = num(axis.hi_0) - num(axis.lo_0);
            (num(next_hi) - num(next_lo)) - (num(hi) - num(lo)) == l0 * (num(rate) * num(dt))
        }),
{
    strain_grows_with_the_steps(ar, axis, rate, dt, step, total);
    strain_grows_with_the_steps(ar, axis, rate, dt, step + 1, total);
    let (l0, r): (real, real) = (num(axis.hi_0) - num(axis.lo_0), num(rate) * num(dt));
    assert((step + 1) as real == step as real + 1real);
    lemma_mul_add(r, step as real, 1real);
    assert(r * 1real == r);
    lemma_mul_add(l0, 1real + r * step as real, r);
}

/// At a velocity the length after `step` steps has grown by velocity, step length and
/// number of steps, about the same middle.
pub proof fn growth_goes_with_the_steps<F: Fn(Op, Scalar, Scalar, Scalar) -> Scalar>(
    ar: F,
    axis: AxisDeform,
    velocity: Scalar,
    dt: Scalar,
    step: int,
    total: int,
)
    requires
        axis.style == (DeformStyle::Vel { velocity }),
        0 <= step <= 2 * FRACTION,
        exact_growth(ar, axis, velocity, dt, step),
    ensures
        ({
            let (lo, hi) = deformed(ar, axis, dt, step, total);
            let l0 = num(axis.hi_0) - num(axis.lo_0);
            &&& num(hi) - num(lo) == l0 + (num(velocity) * num(dt)) * step as real
            &&& num(lo) + num(hi) == num(axis.lo_0) + num(axis.hi_0)
        }),
{
    counted_steps_are_counted(ar, step);
    let delta: Scalar = product(ar, product(ar, velocity, dt), count_word(ar, step));
    let l0: Scalar = difference(ar, axis.hi_0, axis.lo_0);
    lemma_about_the_middle(ar, axis, sum(ar, l0, delta));
}

/// The way to a target is computed without rounding.
pub open spec fn exact_way_to<F: Fn(Op, Scalar, Scalar, Scalar) -> Scalar>(
    ar: F,
    from: Scalar,
    target: Scalar,
    part: Scalar,
) -> bool {
    let way = difference(ar, target, from);
    &&& exact_difference(ar, target, from)
    &&& exact_product(ar, way, part)
    &&& exact_sum(ar, from, product(ar, way, part))
}

/// On the way to given bounds each bound has gone, after `step` of `total` steps, that
/// part of its way; after all of them, and after more, it is at its target.
pub proof fn bounds_reach_their_targets<F: Fn(Op, Scalar, Scalar, Scalar) -> Scalar>(
    ar: F,
    axis: AxisDeform,
    target_lo: Scalar,
    target_hi: Scalar,
    dt: Scalar,
    step: int,
    total: int,
)
    requires
        axis.style == (DeformStyle::Final { target_lo, target_hi }),
        0 <= step <= 2 * FRACTION,
        0 <= total <= 2 * FRACTION,
        total > 0 ==> exact_quotient(ar, count_word(ar, step), count_word(ar, total)),
        ({
            let part = if total > 0 && step <= total {
                quotient(ar, count_word(ar, step), count_word(ar, total))
            } else {
                Scalar::one()
            };
            &&& exact_way_to(ar, axis.lo_0, target_lo, part)
            &&& exact_way_to(ar, axis.hi_0, target_hi, part)
            &&& step == total ==> exact_way_to(ar, axis.lo_0, target_lo, Scalar::one())
                && exact_way_to(ar, axis.hi_0, target_hi, Scalar::one())
        }),
    ensures
        ({
            let (lo, hi) = deformed(ar, axis, dt, step, total);
            &&& step >= total ==> num(lo) == num(target_lo) && num(hi) == num(target_hi)
            &&& step <= total ==> (num(lo) - num(axis.lo_0)) * total as real == (num(target_lo)
                - num(axis.lo_0)) * step as real
            &&& step <= total ==> (num(hi) - num(axis.hi_0)) * total as real == (num(target_hi)
                - num(axis.hi_0)) * step as real
        }),
{
    lemma_constants();
    counted_steps_are_counted(ar, step);
    counted_steps_are_counted(ar, total);
    let (a, b): (real, real) = (
        num(target_lo) - num(axis.lo_0),
        num(target_hi) - num(axis.hi_0),
    );
    assert(a * 1real == a && b * 1real == b);
    let (s, t): (real, real) = (step as real, total as real);
    if total > 0 {
        let part: Scalar = quotient(ar, count_word(ar, step), count_word(ar, total));
        let frac: Scalar = part.smaller(Scalar::one());
        lemma_order(part, Scalar::one());
        lemma_order(Scalar::one(), part);
        let p: real = s / t;
        assert(num(part) == p);
        lemma_divided(s, t);
        lemma_mul_order(p, t, 1real);
        assert(t * 1real == t);
        if step > total {
            if p <= 1real {
                lemma_grow_factor(t, p, 1real);
            }
            assert(frac == Scalar::one());
        } else if step < total {
            if p >= 1real {
                lemma_grow_factor(t, 1real, p);
            }
            assert(frac == part);
        } else {
            if p > 1real {
                lemma_drop_factor(t, p, 1real);
            } else if p < 1real {
                lemma_drop_factor(t, 1real, p);
            }
            assert(num(frac) == 1real);
        }
        if step <= total {
            lemma_mul_order(a, p, t);
            lemma_mul_order(b, p, t);
        }
    } else {
        assert(a * 0real == 0real && b * 0real == 0real);
        let (lo, hi): (Scalar, Scalar) = deformed(ar, axis, dt, step, total);
        assert((num(lo) - num(axis.lo_0)) * 0real == 0real);
        assert((num(hi) - num(axis.hi_0)) * 0real == 0real);
        lemma_order(Scalar::one(), Scalar::one());
    }
}

/// After a step the box, the part of this process and their lengths agree along an
/// axis that deforms, and an axis that does not deform is as it was. An axis is refused
/// exactly where no length would be left.
pub proof fn stepped_axes_are_consistent<F: Fn(Op, Scalar, Scalar, Scalar) -> Scalar>(
    ar: F,
    state: DeformState,
    domain: Domain,
    new: Domain,
    dt: Scalar,
    total: int,
    d: int,
)
    requires
        0 <= d < 3,
        axis_stepped(ar, domain, new, new_bounds(ar, state, dt, total, d), d),
        state.axes[d] is Some ==> exact_difference(
            ar,
            new.boundaries_high[d],
            new.boundaries_low[d],
        ),
    ensures
        state.axes[d] is Some ==> {
            let (low, high) = (num(new.boundaries_low[d]), num(new.boundaries_high[d]));
            &&& num(new.size[d]) == high - low
            &&& num(new.sub_length[d]) == high - low
            &&& num(new.sub_domain_low[d]) == low
            &&& num(new.sub_domain_high[d]) == high
            &&& collapses(ar, state, dt, total, d) <==> high <= low
        },
        state.axes[d] matches Some(axis) ==> (new.boundaries_low[d], new.boundaries_high[d])
            == deformed(ar, axis, dt, state.step + 1, total),
        state.axes[d] is None ==> {
            &&& new.boundaries_low[d] == domain.boundaries_low[d]
            &&& new.boundaries_high[d] == domain.boundaries_high[d]
            &&& new.sub_domain_low[d] == domain.sub_domain_low[d]
            &&& new.sub_domain_high[d] == domain.sub_domain_high[d]
            &&& new.size[d] == domain.size[d]
            &&& new.sub_length[d] == domain.sub_length[d]
            &&& !collapses(ar, state, dt, total, d)
        },
{
    lemma_constants();
    lemma_order(Scalar::zero(), new.size[d]);
}

/// Atoms move only with an axis that deforms, and only where remapping is asked for.
pub proof fn atoms_stay_without_remapping<F: Fn(Op, Scalar, Scalar, Scalar) -> Scalar>(
    ar: F,
    domain: Domain,
    remap: bool,
    bounds: Option<(Scalar, Scalar)>,
    x: Scalar,
    d: int,
)
    requires
        !remap || bounds is None,
    ensures
        stepped_coordinate(ar, domain, remap, bounds, x, d) == x,
{
}

/// An atom in the middle of an axis is moved to the new middle, and one at a bound to
/// the new bound.
pub proof fn remapping_moves_with_the_box<F: Fn(Op, Scalar, Scalar, Scalar) -> Scalar>(
    ar: F,
    domain: Domain,
    lo: Scalar,
    hi: Scalar,
    x: Scalar,
    d: int,
)
    requires
        0 <= d < 3,
        crate::unrounded::exact_remap(
            ar,
            x,
            domain.boundaries_low[d],
            domain.boundaries_high[d],
            lo,
            hi,
        ),
        num(domain.boundaries_low[d]) < num(domain.boundaries_high[d]),
        num(lo) < num(hi),
    ensures
        ({
            let new = stepped_coordinate(ar, domain, true, Some((lo, hi)), x, d);
            let (a, b) = (num(domain.boundaries_low[d]), num(domain.boundaries_high[d]));
            (num(new) - num(lo)) * (b - a) == (num(x) - a) * (num(hi) - num(lo))
        }),
{
    let (from, to): (Scalar, Scalar) = (domain.boundaries_low[d], domain.boundaries_high[d]);
    lemma_constants();
    lemma_order(Scalar::zero(), difference(ar, to, from));
    crate::unrounded::remapped_atoms_keep_their_place(ar, x, from, to, lo, hi);
    let new: Scalar = stepped_coordinate(ar, domain, true, Some((lo, hi)), x, d);
    let (u, v): (real, real) = (num(new) - num(lo), num(x) - num(from));
    let (m, l): (real, real) = (num(hi) - num(lo), num(to) - num(from));
    assert(u / m == v / l);
    lemma_divided(u, m);
    lemma_divided(v, l);
    lemma_mul_order(v / l, m, l);
    lemma_mul_order(v / l, l, m);
    lemma_mul_order(m, l, 1real);
}

/// The volume is the product of the lengths.
pub proof fn volume_is_the_product_of_the_lengths<F: Fn(Op, Scalar, Scalar, Scalar) -> Scalar>(
    ar: F,
    size: Vec3,
)
    requires
        exact_product(ar, size[0], size[1]),
        exact_product(ar, product(ar, size[0], size[1]), size[2]),
    ensures
        is_num(volume_of(ar, size), (num(size[0]) * num(size[1])) * num(size[2])),
{
}

/// The steps of a stage stay the same while it runs: each step that is done is one less
/// that is left. At its start they are all left, and at its end they are all done.
pub proof fn stages_keep_their_length(
    count: Seq<u32>,
    remaining: Seq<u32>,
    later_count: Seq<u32>,
    later_remaining: Seq<u32>,
    done: int,
)
    requires
        count.len() > 0,
        count.len() <= remaining.len(),
        later_count.len() == count.len(),
        later_remaining.len() == remaining.len(),
        later_count.last() == count.last() + done,
        later_remaining[count.len() - 1] == remaining[count.len() - 1] - done,
    ensures
        stage_steps(later_count, later_remaining) == stage_steps(count, remaining),
        count.last() == 0 ==> stage_steps(count, remaining) == remaining[count.len() - 1],
        remaining[count.len() - 1] == 0 ==> stage_steps(count, remaining) == count.last(),
{
}

/// A deformation that starts from bounds begins at them: at no steps nothing has changed,
/// whatever the style.
pub proof fn deformations_start_from_the_bounds<F: Fn(Op, Scalar, Scalar, Scalar) -> Scalar>(
    ar: F,
    axis: AxisDeform,
    low: Scalar,
    high: Scalar,
    dt: Scalar,
    total: int,
)
    requires
        0 < total <= 2 * FRACTION,
        ({
            let a = anchored(Some(axis), low, high)->0;
            match axis.style {
                DeformStyle::Erate { rate } => exact_strain(ar, a, rate, dt, 0),
                DeformStyle::Vel { velocity } => exact_growth(ar, a, velocity, dt, 0),
                DeformStyle::Final { target_lo, target_hi } => {
                    let part = quotient(ar, count_word(ar, 0), count_word(ar, total));
                    &&& exact_quotient(ar, count_word(ar, 0), count_word(ar, total))
                    &&& exact_way_to(ar, low, target_lo, part)
                    &&& exact_way_to(ar, high, target_hi, part)
                },
            }
        }),
    ensures
        anchored(Some(axis), low, high) is Some,
        ({
            let a = anchored(Some(axis), low, high)->0;
            let (lo, hi) = deformed(ar, a, dt, 0, total);
            &&& a.style == axis.style
            &&& num(lo) == num(low)
            &&& num(hi) == num(high)
        }),
        anchored(None, low, high) is None,
{
    let a: AxisDeform = anchored(Some(axis), low, high)->0;
    let l0: real = num(high) - num(low);
    match axis.style {
        DeformStyle::Erate { rate } => {
            strain_grows_with_the_steps(ar, a, rate, dt, 0, total);
            assert((num(rate) * num(dt)) * 0real == 0real);
            assert(l0 * 1real == l0);
        },
        DeformStyle::Vel { velocity } => {
            growth_goes_with_the_steps(ar, a, velocity, dt, 0, total);
            assert((num(velocity) * num(dt)) * 0real == 0real);
        },
        DeformStyle::Final { target_lo, target_hi } => {
            bounds_reach_their_targets(ar, a, target_lo, target_hi, dt, 0, total);
            let (lo, hi): (Scalar, Scalar) = deformed(ar, a, dt, 0, total);
            let t: real = total as real;
            assert((num(target_lo) - num(low)) * 0real == 0real);
            assert((num(target_hi) - num(high)) * 0real == 0real);
            let (x, y): (real, real) = (num(lo) - num(low), num(hi) - num(high));
            assert(x == 0real) by (nonlinear_arith)
                requires
                    x * t == 0real,
                    t > 0real,
            ;
            assert(y == 0real) by (nonlinear_arith)
                requires
                    y * t == 0real,
                    t > 0real,
            ;
        },
    }
}

/// What the user writes is what is done: a rate with the style `erate`, a velocity with
/// `vel`, bounds with `final`; what the style needs must be there, and other styles are
/// refused.
pub proof fn definitions_mean_what_they_say(d: AxisDeformDef)
    ensures
        d.style@ == "erate"@ ==> match d.rate {
            Some(rate) => meaning(Some(d)) matches Ok(Some(a)) && a.style == (DeformStyle::Erate {
                rate,
            }),
            None => meaning(Some(d)) is Err,
        },
        d.style@ == "vel"@ ==> match d.velocity {
            Some(velocity) => meaning(Some(d)) matches Ok(Some(a)) && a.style == (DeformStyle::Vel {
                velocity,
            }),
            None => meaning(Some(d)) is Err,
        },
        d.style@ == "final"@ ==> match (d.lo, d.hi) {
            (Some(lo), Some(hi)) => meaning(Some(d)) matches Ok(Some(a)) && a.style == (
            DeformStyle::Final { target_lo: lo, target_hi: hi }),
            _ => meaning(Some(d)) is Err,
        },
        d.style@ != "erate"@ && d.style@ != "vel"@ && d.style@ != "final"@ ==> meaning(Some(d))
            is Err,
        meaning(None) matches Ok(None),
{
    reveal_strlit("erate");
    reveal_strlit("vel");
    reveal_strlit("final");
    assert("erate"@.len() == 5 && "vel"@.len() == 3 && "final"@.len() == 5);
    assert("erate"@[0] == 'e' && "final"@[0] == 'f');
}

} // verus!

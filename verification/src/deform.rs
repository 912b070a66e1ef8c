//! Deforming the box along its axes.

use crate::atom::{Atom, Record};
use crate::domain::{volume_of, Domain};
use crate::neighbor::Neighbor;
use crate::scalar::{
    count_word, difference, from_count, is_arithmetic, minus, over, plus, product, quotient, sum,
    times, Op, Scalar, Vec3,
};
use vstd::prelude::*;
use vstd::string::*;

verus! {

/// How one axis deforms, as the user writes it.
pub struct AxisDeformDef {
    pub style: String,
    pub rate: Option<Scalar>,
    pub velocity: Option<Scalar>,
    pub lo: Option<Scalar>,
    pub hi: Option<Scalar>,
}

/// How the box deforms, as the user writes it.
pub struct DeformConfig {
    pub x: Option<AxisDeformDef>,
    pub y: Option<AxisDeformDef>,
    pub z: Option<AxisDeformDef>,
    pub remap: bool,
}

/// How one axis deforms.
#[derive(Clone, Copy, PartialEq, Eq, Structural, Debug)]
pub enum DeformStyle {
    /// At a strain rate relative to the initial length.
    Erate { rate: Scalar },
    /// At a constant velocity.
    Vel { velocity: Scalar },
    /// To given bounds over the stage.
    Final { target_lo: Scalar, target_hi: Scalar },
}

/// How one axis deforms, and its initial bounds.
#[derive(Clone, Copy, PartialEq, Eq, Structural, Debug)]
pub struct AxisDeform {
    pub style: DeformStyle,
    pub lo_0: Scalar,
    pub hi_0: Scalar,
}

/// The deformation that is under way.
pub struct DeformState {
    pub axes: [Option<AxisDeform>; 3],
    pub remap: bool,
    pub step: usize,
    pub initialized: bool,
}

/// What is wrong with a deformation.
#[derive(Clone, Copy, PartialEq, Eq, Structural, Debug)]
pub enum DeformError {
    MissingRate,
    MissingVelocity,
    MissingLo,
    MissingHi,
    UnknownStyle,
}

impl DeformState {
    /// An axis deforms.
    pub open spec fn any(&self) -> bool {
        self.axes[0] is Some || self.axes[1] is Some || self.axes[2] is Some
    }

    /// Whether an axis deforms.
    pub fn has_any(&self) -> (r: bool)
        ensures
            r == self.any(),
    {
        self.axes[0].is_some() || self.axes[1].is_some() || self.axes[2].is_some()
    }
}

/// The name of the field that is missing, and of the style that needs it.
pub open spec fn missing_field(e: DeformError) -> (Seq<char>, Seq<char>) {
    match e {
        DeformError::MissingRate => ("erate"@, "rate"@),
        DeformError::MissingVelocity => ("vel"@, "velocity"@),
        DeformError::MissingLo => ("final"@, "lo"@),
        _ => ("final"@, "hi"@),
    }
}

/// What the user is told about the definition of an axis.
pub fn deform_message(e: DeformError, axis: &str, style: &str) -> (r: String)
    ensures
        r@ == "[deform] "@ + axis@ + (if e == DeformError::UnknownStyle {
            ": unknown style '"@ + style@ + "'. Use 'erate', 'vel', or 'final'."@
        } else {
            ": style '"@ + missing_field(e).0 + "' requires '"@ + missing_field(e).1 + "' field"@
        }),
{
    let mut tail: String;
    if e == DeformError::UnknownStyle {
        tail = ": unknown style '".to_owned();
        tail.append(style);
        tail.append("'. Use 'erate', 'vel', or 'final'.");
    } else {
        let needs: (&str, &str) = match e {
            DeformError::MissingRate => ("erate", "rate"),
            DeformError::MissingVelocity => ("vel", "velocity"),
            DeformError::MissingLo => ("final", "lo"),
            _ => ("final", "hi"),
        };
        tail = ": style '".to_owned();
        tail.append(needs.0);
        tail.append("' requires '");
        tail.append(needs.1);
        tail.append("' field");
    }
    let mut out: String = "[deform] ".to_owned();
    out.append(axis);
    out.append(tail.as_str());
    out
}

/// What a user's definition means.
pub open spec fn meaning(def: Option<AxisDeformDef>) -> Result<Option<AxisDeform>, DeformError> {
    match def {
        None => Ok(None),
        Some(d) => {
            let style = if d.style@ == "erate"@ {
                match d.rate {
                    Some(rate) => Ok(DeformStyle::Erate { rate }),
                    None => Err(DeformError::MissingRate),
                }
            } else if d.style@ == "vel"@ {
                match d.velocity {
                    Some(velocity) => Ok(DeformStyle::Vel { velocity }),
                    None => Err(DeformError::MissingVelocity),
                }
            } else if d.style@ == "final"@ {
                match (d.lo, d.hi) {
                    (None, _) => Err(DeformError::MissingLo),
                    (Some(_), None) => Err(DeformError::MissingHi),
                    (Some(target_lo), Some(target_hi)) => Ok(
                        DeformStyle::Final { target_lo, target_hi },
                    ),
                }
            } else {
                Err(DeformError::UnknownStyle)
            };
            match style {
                Ok(style) => Ok(
                    Some(AxisDeform { style, lo_0: Scalar::zero(), hi_0: Scalar::zero() }),
                ),
                Err(e) => Err(e),
            }
        },
    }
}

/// Reads a user's definition.
pub fn parse_axis_def(def: &Option<AxisDeformDef>) -> (r: Result<Option<AxisDeform>, DeformError>)
    ensures
        r == meaning(*def),
{
    let d: &AxisDeformDef = match def {
        None => return Ok(None),
        Some(d) => d,
    };
    proof {
        reveal_strlit("erate");
        reveal_strlit("vel");
        reveal_strlit("final");
    }
    let erate: String = "erate".to_owned();
    let vel: String = "vel".to_owned();
    let target: String = "final".to_owned();
    let style: DeformStyle = if d.style == erate {
        match d.rate {
            Some(rate) => DeformStyle::Erate { rate },
            None => return Err(DeformError::MissingRate),
        }
    } else if d.style == vel {
        match d.velocity {
            Some(velocity) => DeformStyle::Vel { velocity },
            None => return Err(DeformError::MissingVelocity),
        }
    } else if d.style == target {
        match d.lo {
            None => return Err(DeformError::MissingLo),
            Some(target_lo) => match d.hi {
                None => return Err(DeformError::MissingHi),
                Some(target_hi) => DeformStyle::Final { target_lo, target_hi },
            },
        }
    } else {
        return Err(DeformError::UnknownStyle);
    };
    Ok(Some(AxisDeform { style, lo_0: Scalar::zero(), hi_0: Scalar::zero() }))
}

/// The axis with its initial bounds set.
pub open spec fn anchored(axis: Option<AxisDeform>, low: Scalar, high: Scalar) -> Option<AxisDeform> {
    match axis {
        None => None,
        Some(a) => Some(AxisDeform { lo_0: low, hi_0: high, ..a }),
    }
}

fn anchor(axis: Option<AxisDeform>, low: Scalar, high: Scalar) -> (r: Option<AxisDeform>)
    ensures
        r == anchored(axis, low, high),
{
    match axis {
        None => None,
        Some(a) => Some(AxisDeform { style: a.style, lo_0: low, hi_0: high }),
    }
}

/// Starts the deformation of a stage from the present bounds.
pub fn setup_deform(state: &mut DeformState, config: &DeformConfig, domain: &Domain) -> (r: Result<
    (),
    DeformError,
>)
    ensures
        r is Ok <==> meaning(config.x) is Ok && meaning(config.y) is Ok && meaning(config.z) is Ok,
        r matches Err(e) ==> {
            &&& e == if meaning(config.x) is Err {
                meaning(config.x)->Err_0
            } else if meaning(config.y) is Err {
                meaning(config.y)->Err_0
            } else {
                meaning(config.z)->Err_0
            }
            &&& *final(state) == *old(state)
        },
        r is Ok ==> {
            &&& final(state).axes[0] == anchored(
                meaning(config.x)->Ok_0,
                domain.boundaries_low[0],
                domain.boundaries_high[0],
            )
            &&& final(state).axes[1] == anchored(
                meaning(config.y)->Ok_0,
                domain.boundaries_low[1],
                domain.boundaries_high[1],
            )
            &&& final(state).axes[2] == anchored(
                meaning(config.z)->Ok_0,
                domain.boundaries_low[2],
                domain.boundaries_high[2],
            )
            &&& final(state).remap == config.remap
            &&& final(state).step == 0
            &&& final(state).initialized
        },
{
    let x: Option<AxisDeform> = match parse_axis_def(&config.x) {
        Ok(a) => a,
        Err(e) => return Err(e),
    };
    let y: Option<AxisDeform> = match parse_axis_def(&config.y) {
        Ok(a) => a,
        Err(e) => return Err(e),
    };
    let z: Option<AxisDeform> = match parse_axis_def(&config.z) {
        Ok(a) => a,
        Err(e) => return Err(e),
    };
    state.axes = [
        anchor(x, domain.boundaries_low[0], domain.boundaries_high[0]),
        anchor(y, domain.boundaries_low[1], domain.boundaries_high[1]),
        anchor(z, domain.boundaries_low[2], domain.boundaries_high[2]),
    ];
    state.remap = config.remap;
    state.initialized = true;
    state.step = 0;
    Ok(())
}

/// The steps of the current stage: those done and those left, and 1 where
/// nothing is known of the stage.
pub open spec fn stage_steps(count: Seq<u32>, remaining: Seq<u32>) -> int {
    let stage = if count.len() > 0 {
        count.len() - 1
    } else {
        0
    };
    if remaining.len() == 0 || stage >= remaining.len() {
        1
    } else {
        count[stage] + remaining[stage]
    }
}

/// The steps of the current stage.
pub fn total_steps(count: &Vec<u32>, remaining: &Vec<u32>) -> (r: usize)
    requires
        remaining@.len() > 0 ==> count@.len() > 0,
        count@.len() > 0 && count@.len() <= remaining@.len() ==> count@[count@.len() - 1]
            + remaining@[count@.len() - 1] <= u32::MAX,
    ensures
        r == stage_steps(count@, remaining@),
{
    if remaining.len() == 0 {
        return 1;
    }
    let stage: usize = count.len() - 1;
    if stage < remaining.len() {
        (count[stage] + remaining[stage]) as usize
    } else {
        1
    }
}

/// The bounds of an axis after `step` steps.
pub open spec fn deformed<F: Fn(Op, Scalar, Scalar, Scalar) -> Scalar>(
    ar: F,
    axis: AxisDeform,
    dt: Scalar,
    step: int,
    total: int,
) -> (Scalar, Scalar) {
    let l0 = difference(ar, axis.hi_0, axis.lo_0);
    let center = product(ar, sum(ar, axis.lo_0, axis.hi_0), Scalar::half());
    match axis.style {
        DeformStyle::Erate { rate } => {
            let scale = sum(
                ar,
                Scalar::one(),
                product(ar, product(ar, rate, dt), count_word(ar, step)),
            );
            let half = product(ar, product(ar, l0, scale), Scalar::half());
            (difference(ar, center, half), sum(ar, center, half))
        },
        DeformStyle::Vel { velocity } => {
            let delta = product(ar, product(ar, velocity, dt), count_word(ar, step));
            let half = product(ar, sum(ar, l0, delta), Scalar::half());
            (difference(ar, center, half), sum(ar, center, half))
        },
        DeformStyle::Final { target_lo, target_hi } => {
            let part = if total > 0 {
                quotient(ar, count_word(ar, step), count_word(ar, total))
            } else {
                Scalar::one()
            };
            let frac = part.smaller(Scalar::one());
            (
                sum(ar, axis.lo_0, product(ar, difference(ar, target_lo, axis.lo_0), frac)),
                sum(ar, axis.hi_0, product(ar, difference(ar, target_hi, axis.hi_0), frac)),
            )
        },
    }
}

fn deform_axis<F: Fn(Op, Scalar, Scalar, Scalar) -> Scalar>(
    axis: AxisDeform,
    dt: Scalar,
    step: usize,
    total: usize,
    ar: &F,
) -> (r: (Scalar, Scalar))
    requires
        is_arithmetic(*ar),
    ensures
        r == deformed(*ar, axis, dt, step as int, total as int),
{
    let l0: Scalar = minus(ar, axis.hi_0, axis.lo_0);
    let center: Scalar = times(ar, plus(ar, axis.lo_0, axis.hi_0), Scalar::half());
    let steps: Scalar = from_count(ar, step as u64);
    match axis.style {
        DeformStyle::Erate { rate } => {
            let scale: Scalar = plus(ar, Scalar::one(), times(ar, times(ar, rate, dt), steps));
            let half: Scalar = times(ar, times(ar, l0, scale), Scalar::half());
            (minus(ar, center, half), plus(ar, center, half))
        },
        DeformStyle::Vel { velocity } => {
            let delta: Scalar = times(ar, times(ar, velocity, dt), steps);
            let half: Scalar = times(ar, plus(ar, l0, delta), Scalar::half());
            (minus(ar, center, half), plus(ar, center, half))
        },
        DeformStyle::Final { target_lo, target_hi } => {
            let part: Scalar = if total > 0 {
                over(ar, steps, from_count(ar, total as u64))
            } else {
                Scalar::one()
            };
            let frac: Scalar = part.min(Scalar::one());
            (
                plus(ar, axis.lo_0, times(ar, minus(ar, target_lo, axis.lo_0), frac)),
                plus(ar, axis.hi_0, times(ar, minus(ar, target_hi, axis.hi_0), frac)),
            )
        },
    }
}

/// A coordinate moved with the box from the old bounds to the new ones.
pub open spec fn remapped<F: Fn(Op, Scalar, Scalar, Scalar) -> Scalar>(
    ar: F,
    x: Scalar,
    old_lo: Scalar,
    old_hi: Scalar,
    new_lo: Scalar,
    new_hi: Scalar,
) -> Scalar {
    let scale = quotient(ar, difference(ar, new_hi, new_lo), difference(ar, old_hi, old_lo));
    let new_center = product(ar, sum(ar, new_lo, new_hi), Scalar::half());
    let old_center = product(ar, sum(ar, old_lo, old_hi), Scalar::half());
    sum(ar, new_center, product(ar, difference(ar, x, old_center), scale))
}

/// The new bounds of axis `d`, if it deforms.
pub open spec fn new_bounds<F: Fn(Op, Scalar, Scalar, Scalar) -> Scalar>(
    ar: F,
    state: DeformState,
    dt: Scalar,
    total: int,
    d: int,
) -> Option<(Scalar, Scalar)> {
    match state.axes[d] {
        None => None,
        Some(axis) => Some(deformed(ar, axis, dt, state.step + 1, total)),
    }
}

/// Axis `d` would shrink to nothing.
pub open spec fn collapses<F: Fn(Op, Scalar, Scalar, Scalar) -> Scalar>(
    ar: F,
    state: DeformState,
    dt: Scalar,
    total: int,
    d: int,
) -> bool {
    match new_bounds(ar, state, dt, total, d) {
        None => false,
        Some((lo, hi)) => Scalar::zero().at_least(difference(ar, hi, lo)),
    }
}

/// The bounds of `new` along axis `d` are those of `domain` after the step.
pub open spec fn axis_stepped<F: Fn(Op, Scalar, Scalar, Scalar) -> Scalar>(
    ar: F,
    domain: Domain,
    new: Domain,
    bounds: Option<(Scalar, Scalar)>,
    d: int,
) -> bool {
    match bounds {
        Some((lo, hi)) => {
            &&& new.boundaries_low[d] == lo && new.sub_domain_low[d] == lo
            &&& new.boundaries_high[d] == hi && new.sub_domain_high[d] == hi
            &&& new.size[d] == difference(ar, hi, lo) && new.sub_length[d] == new.size[d]
        },
        None => axis_kept(domain, new, d),
    }
}

/// The bounds along axis `d` agree.
pub open spec fn axis_kept(domain: Domain, new: Domain, d: int) -> bool {
    &&& new.boundaries_low[d] == domain.boundaries_low[d]
    &&& new.boundaries_high[d] == domain.boundaries_high[d]
    &&& new.sub_domain_low[d] == domain.sub_domain_low[d]
    &&& new.sub_domain_high[d] == domain.sub_domain_high[d]
    &&& new.size[d] == domain.size[d]
    &&& new.sub_length[d] == domain.sub_length[d]
}

/// One coordinate of a local atom after the step.
pub open spec fn stepped_coordinate<F: Fn(Op, Scalar, Scalar, Scalar) -> Scalar>(
    ar: F,
    domain: Domain,
    remap: bool,
    bounds: Option<(Scalar, Scalar)>,
    x: Scalar,
    d: int,
) -> Scalar {
    let (old_lo, old_hi) = (domain.boundaries_low[d], domain.boundaries_high[d]);
    match bounds {
        Some((lo, hi)) => if remap && Scalar::zero().below(difference(ar, old_hi, old_lo)) {
            remapped(ar, x, old_lo, old_hi, lo, hi)
        } else {
            x
        },
        None => x,
    }
}

/// The first axis that would have no length left, and the bounds it would have.
#[derive(Clone, Copy, PartialEq, Eq, Structural, Debug)]
pub struct Collapse {
    pub axis: usize,
    pub lo: Scalar,
    pub hi: Scalar,
}

/// Deforms the box by one step, and the atoms with it. Returns the first axis
/// that would collapse; from there on nothing is deformed.
#[verifier::rlimit(60)]
pub fn apply_deform<F: Fn(Op, Scalar, Scalar, Scalar) -> Scalar>(
    atoms: &mut Atom,
    domain: &mut Domain,
    state: &mut DeformState,
    neighbor: &mut Neighbor,
    total: usize,
    ar: &F,
) -> (r: Option<Collapse>)
    requires
        is_arithmetic(*ar),
        old(atoms).wf(),
        old(atoms).nlocal <= old(atoms).records().len(),
        old(state).step < usize::MAX,
    ensures
        !old(state).initialized || !old(state).any() ==> {
            &&& r is None
            &&& *final(atoms) == *old(atoms)
            &&& *final(domain) == *old(domain)
            &&& *final(state) == *old(state)
            &&& *final(neighbor) == *old(neighbor)
        },
        old(state).initialized && old(state).any() ==> {
            &&& *final(state) == (DeformState { step: (old(state).step + 1) as usize, ..*old(state) })
            &&& r matches Some(c) ==> {
                &&& c.axis < 3
                &&& collapses(*ar, *old(state), old(atoms).dt, total as int, c.axis as int)
                &&& new_bounds(*ar, *old(state), old(atoms).dt, total as int, c.axis as int) == Some(
                    (c.lo, c.hi),
                )
                &&& forall|k: int|
                    0 <= k < c.axis ==> !#[trigger] collapses(
                        *ar,
                        *old(state),
                        old(atoms).dt,
                        total as int,
                        k,
                    )
            }
            &&& r is None ==> {
                &&& forall|k: int|
                    0 <= k < 3 ==> !#[trigger] collapses(
                        *ar,
                        *old(state),
                        old(atoms).dt,
                        total as int,
                        k,
                    )
                &&& forall|d: int|
                    0 <= d < 3 ==> #[trigger] axis_stepped(
                        *ar,
                        *old(domain),
                        *final(domain),
                        new_bounds(*ar, *old(state), old(atoms).dt, total as int, d),
                        d,
                    )
                &&& final(domain).volume == volume_of(*ar, final(domain).size)
                &&& final(domain).same_settings(old(domain))
                &&& final(domain).bounds_changed == old(domain).bounds_changed
                &&& final(neighbor).last_build_pos@.len() == 0
                &&& *final(neighbor) == (Neighbor {
                    last_build_pos: final(neighbor).last_build_pos,
                    ..*old(neighbor)
                })
                &&& final(atoms).wf()
                &&& final(atoms).same_header(old(atoms))
                &&& final(atoms).records().len() == old(atoms).records().len()
                &&& forall|i: int|
                    0 <= i < old(atoms).records().len() ==> #[trigger] final(atoms).record(i) == (
                    Record { pos: final(atoms).pos@[i], ..old(atoms).record(i) })
                &&& forall|i: int, d: int|
                    0 <= i < old(atoms).nlocal && 0 <= d < 3 ==> #[trigger] final(atoms).pos@[i][d]
                        == stepped_coordinate(
                        *ar,
                        *old(domain),
                        old(state).remap,
                        new_bounds(*ar, *old(state), old(atoms).dt, total as int, d),
                        old(atoms).pos@[i][d],
                        d,
                    )
                &&& forall|i: int|
                    old(atoms).nlocal <= i < old(atoms).records().len() ==> #[trigger] final(
                        atoms).pos@[i] == old(atoms).pos@[i]
            }
        },
{
    if !state.initialized || !state.has_any() {
        return None;
    }
    let ghost before: DeformState = *state;
    let ghost start: Atom = *atoms;
    let ghost dom: Domain = *domain;
    state.step = state.step + 1;
    let dt: Scalar = atoms.dt;
    let step: usize = state.step;
    let nlocal: usize = atoms.nlocal as usize;
    let mut dim: usize = 0;
    while dim < 3
        invariant
            is_arithmetic(*ar),
            dim <= 3,
            start == *old(atoms),
            dom == *old(domain),
            before == *old(state),
            start.wf(),
            start.dt == dt,
            start.nlocal == nlocal,
            nlocal <= start.records().len(),
            step == before.step + 1,
                before.initialized,
            before.any(),
            *state == (DeformState { step: (before.step + 1) as usize, ..before }),
            atoms.wf(),
            atoms.same_header(&start),
            atoms.records().len() == start.records().len(),
            atoms.tag@ == start.tag@,
            atoms.atom_type@ == start.atom_type@,
            atoms.origin_index@ == start.origin_index@,
            atoms.is_ghost@ == start.is_ghost@,
            atoms.vel@ == start.vel@,
            atoms.force@ == start.force@,
            atoms.cutoff_radius@ == start.cutoff_radius@,
            atoms.mass@ == start.mass@,
            atoms.inv_mass@ == start.inv_mass@,
            atoms.image@ == start.image@,
            domain.same_settings(&dom),
            domain.bounds_changed == dom.bounds_changed,
            forall|k: int|
                0 <= k < dim ==> !#[trigger] collapses(*ar, before, dt, total as int, k),
            forall|d: int|
                0 <= d < dim ==> #[trigger] axis_stepped(
                    *ar,
                    dom,
                    *domain,
                    new_bounds(*ar, before, dt, total as int, d),
                    d,
                ),
            forall|d: int| dim <= d < 3 ==> #[trigger] axis_kept(dom, *domain, d),
            forall|i: int, d: int|
                0 <= i < nlocal && 0 <= d < dim ==> #[trigger] atoms.pos@[i][d] == stepped_coordinate(
                    *ar,
                    dom,
                    before.remap,
                    new_bounds(*ar, before, dt, total as int, d),
                    start.pos@[i][d],
                    d,
                ),
            forall|i: int, d: int|
                0 <= i < nlocal && dim <= d < 3 ==> #[trigger] atoms.pos@[i][d] == start.pos@[i][d],
            forall|i: int|
                nlocal <= i < start.records().len() ==> #[trigger] atoms.pos@[i] == start.pos@[i],
        decreases 3 - dim,
    {
        let ghost mid: Domain = *domain;
        assert(axis_kept(dom, *domain, dim as int));
        match state.axes[dim] {
            None => {
                assert(!collapses(*ar, before, dt, total as int, dim as int));
            },
            Some(axis) => {
                let old_lo: Scalar = domain.boundaries_low[dim];
                let old_hi: Scalar = domain.boundaries_high[dim];
                let old_size: Scalar = minus(ar, old_hi, old_lo);
                let (new_lo, new_hi): (Scalar, Scalar) = deform_axis(axis, dt, step, total, ar);
                let new_size: Scalar = minus(ar, new_hi, new_lo);
                if Scalar::zero().ge(new_size) {
                    assert(collapses(*ar, before, dt, total as int, dim as int));
                    return Some(Collapse { axis: dim, lo: new_lo, hi: new_hi });
                }
                assert(!collapses(*ar, before, dt, total as int, dim as int));
                if state.remap && Scalar::zero().lt(old_size) {
                    let scale: Scalar = over(ar, new_size, old_size);
                    let new_center: Scalar = times(ar, plus(ar, new_lo, new_hi), Scalar::half());
                    let old_center: Scalar = times(ar, plus(ar, old_lo, old_hi), Scalar::half());
                    remap_axis(atoms, nlocal, dim, new_center, old_center, scale, ar);
                }
                domain.boundaries_low[dim] = new_lo;
                domain.boundaries_high[dim] = new_hi;
                domain.size[dim] = new_size;
                domain.sub_domain_low[dim] = new_lo;
                domain.sub_domain_high[dim] = new_hi;
                domain.sub_length[dim] = new_size;
                proof {
                    assert(axis_stepped(
                        *ar,
                        dom,
                        *domain,
                        new_bounds(*ar, before, dt, total as int, dim as int),
                        dim as int,
                    ));
                }
            },
        }
        proof {
            assert forall|d: int| 0 <= d < dim implies #[trigger] axis_stepped(
                *ar,
                dom,
                *domain,
                new_bounds(*ar, before, dt, total as int, d),
                d,
            ) by {
                assert(axis_stepped(
                    *ar,
                    dom,
                    mid,
                    new_bounds(*ar, before, dt, total as int, d),
                    d,
                ));
            }
            assert forall|d: int| dim < d < 3 implies #[trigger] axis_kept(dom, *domain, d) by {
                assert(axis_kept(dom, mid, d));
            }
        }
        dim = dim + 1;
    }
    let ghost done: Domain = *domain;
    domain.volume = times(ar, times(ar, domain.size[0], domain.size[1]), domain.size[2]);
    neighbor.last_build_pos.clear();
    proof {
        assert forall|d: int| 0 <= d < 3 implies #[trigger] axis_stepped(
            *ar,
            dom,
            *domain,
            new_bounds(*ar, before, dt, total as int, d),
            d,
        ) by {
            assert(axis_stepped(*ar, dom, done, new_bounds(*ar, before, dt, total as int, d), d));
        }
    }
    None
}

/// Moves one coordinate of every local atom with the box.
fn remap_axis<F: Fn(Op, Scalar, Scalar, Scalar) -> Scalar>(
    atoms: &mut Atom,
    nlocal: usize,
    dim: usize,
    new_center: Scalar,
    old_center: Scalar,
    scale: Scalar,
    ar: &F,
)
    requires
        is_arithmetic(*ar),
        old(atoms).wf(),
        nlocal <= old(atoms).records().len(),
        dim < 3,
    ensures
        *final(atoms) == (Atom { pos: final(atoms).pos, ..*old(atoms) }),
        final(atoms).pos@.len() == old(atoms).pos@.len(),
        forall|i: int|
            nlocal <= i < old(atoms).pos@.len() ==> #[trigger] final(atoms).pos@[i]
                == old(atoms).pos@[i],
        forall|i: int, d: int|
            0 <= i < nlocal && 0 <= d < 3 ==> #[trigger] final(atoms).pos@[i][d] == if d == dim {
                sum(
                    *ar,
                    new_center,
                    product(*ar, difference(*ar, old(atoms).pos@[i][d], old_center), scale),
                )
            } else {
                old(atoms).pos@[i][d]
            },
{
    let ghost start: Seq<Vec3> = atoms.pos@;
    let mut i: usize = 0;
    while i < nlocal
        invariant
            is_arithmetic(*ar),
            dim < 3,
            i <= nlocal <= start.len(),
            start == old(atoms).pos@,
            atoms.pos@.len() == start.len(),
            *atoms == (Atom { pos: atoms.pos, ..*old(atoms) }),
            forall|k: int| i <= k < start.len() ==> #[trigger] atoms.pos@[k] == start[k],
            forall|k: int, d: int|
                0 <= k < i && 0 <= d < 3 ==> #[trigger] atoms.pos@[k][d] == if d == dim {
                    sum(
                        *ar,
                        new_center,
                        product(*ar, difference(*ar, start[k][d], old_center), scale),
                    )
                } else {
                    start[k][d]
                },
        decreases nlocal - i,
    {
        let mut p: Vec3 = atoms.pos[i];
        p[dim] = plus(ar, new_center, times(ar, minus(ar, p[dim], old_center), scale));
        atoms.pos.set(i, p);
        i = i + 1;
    }
}

} // verus!

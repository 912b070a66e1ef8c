//! Velocity Verlet integration.

use crate::atom::{Atom, Record};
use crate::scalar::{is_arithmetic, plus, product, sum, times, Op, Scalar, Vec3};
use vstd::prelude::*;

verus! {

/// Velocity Verlet, in every stage or in the one that is named.
pub struct VelocityVerletPlugin {
    pub stage: Option<String>,
}

impl VelocityVerletPlugin {
    /// In every stage.
    pub fn new() -> (r: Self)
        ensures
            r.stage is None,
    {
        VelocityVerletPlugin { stage: None }
    }

    /// In the stage `name` only.
    pub fn for_stage(name: &str) -> (r: Self)
        ensures
            r.stage is Some,
            r.stage->0@ == name@,
    {
        VelocityVerletPlugin { stage: Some(name.to_owned()) }
    }
}

impl Default for VelocityVerletPlugin {
    fn default() -> (r: Self)
        ensures
            r.stage is None,
    {
        VelocityVerletPlugin::new()
    }
}

/// Half a step over the mass.
pub open spec fn half_step<F: Fn(Op, Scalar, Scalar, Scalar) -> Scalar>(
    ar: F,
    dt: Scalar,
    inv_mass: Scalar,
) -> Scalar {
    product(ar, product(ar, Scalar::half(), dt), inv_mass)
}

/// The velocity after half a step under the force.
pub open spec fn kicked<F: Fn(Op, Scalar, Scalar, Scalar) -> Scalar>(ar: F, dt: Scalar, rec: Record) -> Vec3 {
    let h = half_step(ar, dt, rec.inv_mass);
    [
        sum(ar, rec.vel[0], product(ar, h, rec.force[0])),
        sum(ar, rec.vel[1], product(ar, h, rec.force[1])),
        sum(ar, rec.vel[2], product(ar, h, rec.force[2])),
    ]
}

/// The position after a step at velocity `v`.
pub open spec fn drifted<F: Fn(Op, Scalar, Scalar, Scalar) -> Scalar>(
    ar: F,
    dt: Scalar,
    pos: Vec3,
    v: Vec3,
) -> Vec3 {
    [
        sum(ar, pos[0], product(ar, v[0], dt)),
        sum(ar, pos[1], product(ar, v[1], dt)),
        sum(ar, pos[2], product(ar, v[2], dt)),
    ]
}

fn kick<F: Fn(Op, Scalar, Scalar, Scalar) -> Scalar>(atoms: &Atom, i: usize, ar: &F) -> (r: Vec3)
    requires
        is_arithmetic(*ar),
        atoms.wf(),
        i < atoms.records().len(),
    ensures
        r == kicked(*ar, atoms.dt, atoms.record(i as int)),
{
    let h: Scalar = times(ar, times(ar, Scalar::half(), atoms.dt), atoms.inv_mass[i]);
    let v: Vec3 = atoms.vel[i];
    let f: Vec3 = atoms.force[i];
    [
        plus(ar, v[0], times(ar, h, f[0])),
        plus(ar, v[1], times(ar, h, f[1])),
        plus(ar, v[2], times(ar, h, f[2])),
    ]
}

/// First half of a step: half a kick, then a full drift at the new velocity.
/// Ghosts are left alone.
pub fn initial_integration<F: Fn(Op, Scalar, Scalar, Scalar) -> Scalar>(atoms: &mut Atom, ar: &F)
    requires
        is_arithmetic(*ar),
        old(atoms).wf(),
        old(atoms).nlocal <= old(atoms).records().len(),
    ensures
        final(atoms).wf(),
        final(atoms).same_header(old(atoms)),
        final(atoms).records().len() == old(atoms).records().len(),
        forall|i: int|
            0 <= i < old(atoms).nlocal ==> #[trigger] final(atoms).record(i) == ({
                let rec = old(atoms).record(i);
                let v = kicked(*ar, old(atoms).dt, rec);
                Record { vel: v, pos: drifted(*ar, old(atoms).dt, rec.pos, v), ..rec }
            }),
        forall|i: int|
            old(atoms).nlocal <= i < old(atoms).records().len() ==> #[trigger] final(atoms).record(i)
                == old(atoms).record(i),
{
    let nlocal: usize = atoms.nlocal as usize;
    let dt: Scalar = atoms.dt;
    let ghost start: Atom = *atoms;
    let mut i: usize = 0;
    while i < nlocal
        invariant
            is_arithmetic(*ar),
            start.wf(),
            dt == start.dt,
            i <= nlocal <= start.records().len(),
            atoms.wf(),
            atoms.same_header(&start),
            atoms.records().len() == start.records().len(),
            forall|k: int|
                0 <= k < i ==> #[trigger] atoms.record(k) == ({
                    let rec = start.record(k);
                    let v = kicked(*ar, dt, rec);
                    Record { vel: v, pos: drifted(*ar, dt, rec.pos, v), ..rec }
                }),
            forall|k: int|
                i <= k < start.records().len() ==> #[trigger] atoms.record(k) == start.record(k),
        decreases nlocal - i,
    {
        let ghost mid: Atom = *atoms;
        assert(atoms.record(i as int) == start.record(i as int));
        let v: Vec3 = kick(atoms, i, ar);
        let p: Vec3 = atoms.pos[i];
        let q: Vec3 = [
            plus(ar, p[0], times(ar, v[0], dt)),
            plus(ar, p[1], times(ar, v[1], dt)),
            plus(ar, p[2], times(ar, v[2], dt)),
        ];
        atoms.vel.set(i, v);
        atoms.pos.set(i, q);
        proof {
            assert forall|k: int| 0 <= k < start.records().len() && k != i implies #[trigger] atoms.record(
                k,
            ) == mid.record(k) by {}
        }
        i = i + 1;
    }
}

/// Second half of a step: the other half of the kick, under the new force.
pub fn final_integration<F: Fn(Op, Scalar, Scalar, Scalar) -> Scalar>(atoms: &mut Atom, ar: &F)
    requires
        is_arithmetic(*ar),
        old(atoms).wf(),
        old(atoms).nlocal <= old(atoms).records().len(),
    ensures
        final(atoms).wf(),
        final(atoms).same_header(old(atoms)),
        final(atoms).records().len() == old(atoms).records().len(),
        forall|i: int|
            0 <= i < old(atoms).nlocal ==> #[trigger] final(atoms).record(i) == (Record {
                vel: kicked(*ar, old(atoms).dt, old(atoms).record(i)),
                ..old(atoms).record(i)
            }),
        forall|i: int|
            old(atoms).nlocal <= i < old(atoms).records().len() ==> #[trigger] final(atoms).record(i)
                == old(atoms).record(i),
{
    let nlocal: usize = atoms.nlocal as usize;
    let ghost start: Atom = *atoms;
    let mut i: usize = 0;
    while i < nlocal
        invariant
            is_arithmetic(*ar),
            start.wf(),
            i <= nlocal <= start.records().len(),
            atoms.wf(),
            atoms.same_header(&start),
            atoms.records().len() == start.records().len(),
            forall|k: int|
                0 <= k < i ==> #[trigger] atoms.record(k) == (Record {
                    vel: kicked(*ar, start.dt, start.record(k)),
                    ..start.record(k)
                }),
            forall|k: int|
                i <= k < start.records().len() ==> #[trigger] atoms.record(k) == start.record(k),
        decreases nlocal - i,
    {
        let ghost mid: Atom = *atoms;
        assert(atoms.record(i as int) == start.record(i as int));
        let v: Vec3 = kick(atoms, i, ar);
        atoms.vel.set(i, v);
        proof {
            assert forall|k: int| 0 <= k < start.records().len() && k != i implies #[trigger] atoms.record(
                k,
            ) == mid.record(k) by {}
        }
        i = i + 1;
    }
}

/// Without a force, and where adding nothing changes nothing, an atom keeps
/// its velocity in both halves of a step.
pub proof fn free_atoms_keep_their_velocity<F: Fn(Op, Scalar, Scalar, Scalar) -> Scalar>(
    ar: F,
    dt: Scalar,
    rec: Record,
)
    requires
        forall|d: int|
            0 <= d < 3 ==> sum(
                ar,
                #[trigger] rec.vel[d],
                product(ar, half_step(ar, dt, rec.inv_mass), rec.force[d]),
            ) == rec.vel[d],
    ensures
        kicked(ar, dt, rec) == rec.vel,
{
    assert(rec.vel[0] == kicked(ar, dt, rec)[0] && rec.vel[1] == kicked(ar, dt, rec)[1]
        && rec.vel[2] == kicked(ar, dt, rec)[2]);
    assert(kicked(ar, dt, rec) =~= rec.vel);
}

} // verus!

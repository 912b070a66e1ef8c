//! The simulation box, its boundaries and this process's part of it.

use crate::atom::{Atom, Record};
use crate::atom_data::{AtomData, AtomDataRegistry};
use crate::scalar::{
    difference, int_word, is_arithmetic, minus, over, plus, product, quotient, sum, times, Op,
    Scalar, Vec3,
};
use crate::sweep::{leaving, lemma_sweep, sweep};
use crate::CommState;
use vstd::prelude::*;

verus! {

/// What happens at a pair of opposite faces.
#[derive(Clone, Copy, PartialEq, Eq, Structural, Debug)]
pub enum BoundaryType {
    Periodic,
    Fixed,
    ShrinkWrap,
}

impl Default for BoundaryType {
    fn default() -> (r: Self)
        ensures
            r == BoundaryType::Periodic,
    {
        BoundaryType::Periodic
    }
}

/// The box as the user describes it.
#[derive(Clone, Copy, Debug)]
pub struct DomainConfig {
    pub x_low: Scalar,
    pub x_high: Scalar,
    pub y_low: Scalar,
    pub y_high: Scalar,
    pub z_low: Scalar,
    pub z_high: Scalar,
    pub boundary_x: BoundaryType,
    pub boundary_y: BoundaryType,
    pub boundary_z: BoundaryType,
    pub shrink_wrap_padding: Scalar,
}

impl Default for DomainConfig {
    fn default() -> (r: Self)
        ensures
            r.x_low == Scalar::zero() && r.x_high == Scalar::one(),
            r.y_low == Scalar::zero() && r.y_high == Scalar::one(),
            r.z_low == Scalar::zero() && r.z_high == Scalar::one(),
            r.boundary_x == BoundaryType::Periodic,
            r.boundary_y == BoundaryType::Periodic,
            r.boundary_z == BoundaryType::Periodic,
            r.shrink_wrap_padding == Scalar::zero(),
    {
        DomainConfig {
            x_low: Scalar::zero(),
            x_high: Scalar::one(),
            y_low: Scalar::zero(),
            y_high: Scalar::one(),
            z_low: Scalar::zero(),
            z_high: Scalar::one(),
            boundary_x: BoundaryType::Periodic,
            boundary_y: BoundaryType::Periodic,
            boundary_z: BoundaryType::Periodic,
            shrink_wrap_padding: Scalar::zero(),
        }
    }
}

impl DomainConfig {
    /// One of the axes is shrink-wrapped.
    pub open spec fn shrinks(&self) -> bool {
        self.boundary_x == BoundaryType::ShrinkWrap || self.boundary_y == BoundaryType::ShrinkWrap
            || self.boundary_z == BoundaryType::ShrinkWrap
    }

    /// The boundaries of the three axes.
    pub fn boundary_types(&self) -> (r: [BoundaryType; 3])
        ensures
            r[0] == self.boundary_x,
            r[1] == self.boundary_y,
            r[2] == self.boundary_z,
    {
        [self.boundary_x, self.boundary_y, self.boundary_z]
    }

    /// Whether one of the axes is shrink-wrapped.
    pub fn has_shrink_wrap(&self) -> (r: bool)
        ensures
            r == self.shrinks(),
    {
        self.boundary_x == BoundaryType::ShrinkWrap || self.boundary_y == BoundaryType::ShrinkWrap
            || self.boundary_z == BoundaryType::ShrinkWrap
    }
}

/// The box, and the part of it that this process owns.
pub struct Domain {
    pub boundaries_low: Vec3,
    pub boundaries_high: Vec3,
    pub sub_domain_low: Vec3,
    pub sub_domain_high: Vec3,
    pub sub_length: Vec3,
    pub volume: Scalar,
    pub size: Vec3,
    pub boundary_type: [BoundaryType; 3],
    pub shrink_wrap_padding: Scalar,
    pub bounds_changed: bool,
    pub ghost_cutoff: Scalar,
}

/// All three components are `x`.
pub open spec fn all_are(a: Vec3, x: Scalar) -> bool {
    a[0] == x && a[1] == x && a[2] == x
}

/// Component by component, `a - b`.
pub open spec fn is_difference<F: Fn(Op, Scalar, Scalar, Scalar) -> Scalar>(
    ar: F,
    r: Vec3,
    a: Vec3,
    b: Vec3,
) -> bool {
    &&& r[0] == difference(ar, a[0], b[0])
    &&& r[1] == difference(ar, a[1], b[1])
    &&& r[2] == difference(ar, a[2], b[2])
}

/// The product of the three components.
pub open spec fn volume_of<F: Fn(Op, Scalar, Scalar, Scalar) -> Scalar>(ar: F, size: Vec3) -> Scalar {
    product(ar, product(ar, size[0], size[1]), size[2])
}

impl Domain {
    /// The unit cube with periodic faces.
    pub fn new() -> (r: Domain)
        ensures
            all_are(r.boundaries_low, Scalar::zero()),
            all_are(r.boundaries_high, Scalar::one()),
            all_are(r.sub_domain_low, Scalar::zero()),
            all_are(r.sub_domain_high, Scalar::one()),
            all_are(r.sub_length, Scalar::one()),
            all_are(r.size, Scalar::one()),
            r.boundary_type[0] == BoundaryType::Periodic,
            r.boundary_type[1] == BoundaryType::Periodic,
            r.boundary_type[2] == BoundaryType::Periodic,
            r.shrink_wrap_padding == Scalar::zero(),
            !r.bounds_changed,
            r.volume == Scalar::one(),
            r.ghost_cutoff == Scalar::zero(),
    {
        let zero: Scalar = Scalar::zero();
        let one: Scalar = Scalar::one();
        let p: BoundaryType = BoundaryType::Periodic;
        Domain {
            boundaries_low: [zero, zero, zero],
            boundaries_high: [one, one, one],
            sub_domain_low: [zero, zero, zero],
            sub_domain_high: [one, one, one],
            sub_length: [one, one, one],
            volume: one,
            size: [one, one, one],
            boundary_type: [p, p, p],
            shrink_wrap_padding: zero,
            bounds_changed: false,
            ghost_cutoff: zero,
        }
    }

    /// The fields that a change of bounds leaves alone.
    pub open spec fn same_settings(&self, other: &Domain) -> bool {
        &&& self.boundary_type == other.boundary_type
        &&& self.shrink_wrap_padding == other.shrink_wrap_padding
        &&& self.ghost_cutoff == other.ghost_cutoff
    }

    /// Sizes and volume follow from the bounds.
    pub open spec fn derived<F: Fn(Op, Scalar, Scalar, Scalar) -> Scalar>(&self, ar: F) -> bool {
        &&& is_difference(ar, self.size, self.boundaries_high, self.boundaries_low)
        &&& is_difference(ar, self.sub_length, self.sub_domain_high, self.sub_domain_low)
        &&& self.volume == volume_of(ar, self.size)
    }

    /// Recomputes sizes and volume from the bounds.
    pub fn update_derived<F: Fn(Op, Scalar, Scalar, Scalar) -> Scalar>(&mut self, ar: &F)
        requires
            is_arithmetic(*ar),
        ensures
            final(self).derived(*ar),
            final(self).same_settings(old(self)),
            final(self).bounds_changed == old(self).bounds_changed,
            final(self).boundaries_low == old(self).boundaries_low,
            final(self).boundaries_high == old(self).boundaries_high,
            final(self).sub_domain_low == old(self).sub_domain_low,
            final(self).sub_domain_high == old(self).sub_domain_high,
    {
        self.size = subtract(ar, self.boundaries_high, self.boundaries_low);
        self.sub_length = subtract(ar, self.sub_domain_high, self.sub_domain_low);
        self.volume = times(ar, times(ar, self.size[0], self.size[1]), self.size[2]);
    }

    pub fn is_periodic(&self, d: usize) -> (r: bool)
        requires
            d < 3,
        ensures
            r == (self.boundary_type[d as int] == BoundaryType::Periodic),
    {
        self.boundary_type[d] == BoundaryType::Periodic
    }

    pub fn is_shrink_wrap(&self, d: usize) -> (r: bool)
        requires
            d < 3,
        ensures
            r == (self.boundary_type[d as int] == BoundaryType::ShrinkWrap),
    {
        self.boundary_type[d] == BoundaryType::ShrinkWrap
    }

    /// Which axes are periodic.
    pub fn periodic_flags(&self) -> (r: [bool; 3])
        ensures
            forall|d: int|
                0 <= d < 3 ==> #[trigger] r[d] == (self.boundary_type[d] == BoundaryType::Periodic),
    {
        [self.is_periodic(0), self.is_periodic(1), self.is_periodic(2)]
    }
}

impl Default for Domain {
    fn default() -> (r: Self)
        ensures
            all_are(r.boundaries_low, Scalar::zero()),
            all_are(r.boundaries_high, Scalar::one()),
            all_are(r.sub_domain_low, Scalar::zero()),
            all_are(r.sub_domain_high, Scalar::one()),
            all_are(r.sub_length, Scalar::one()),
            all_are(r.size, Scalar::one()),
            r.boundary_type[0] == BoundaryType::Periodic,
            r.boundary_type[1] == BoundaryType::Periodic,
            r.boundary_type[2] == BoundaryType::Periodic,
            r.shrink_wrap_padding == Scalar::zero(),
            !r.bounds_changed,
            r.volume == Scalar::one(),
            r.ghost_cutoff == Scalar::zero(),
    {
        Domain::new()
    }
}

/// Component by component, `a - b`.
pub fn subtract<F: Fn(Op, Scalar, Scalar, Scalar) -> Scalar>(ar: &F, a: Vec3, b: Vec3) -> (r: Vec3)
    requires
        is_arithmetic(*ar),
    ensures
        is_difference(*ar, r, a, b),
{
    [minus(ar, a[0], b[0]), minus(ar, a[1], b[1]), minus(ar, a[2], b[2])]
}

/// The face of a part at grid line `k` along an axis that starts at `low`.
pub open spec fn grid_line<F: Fn(Op, Scalar, Scalar, Scalar) -> Scalar>(
    ar: F,
    low: Scalar,
    delta: Scalar,
    k: int,
) -> Scalar {
    sum(ar, low, product(ar, delta, int_word(k)))
}

/// `r` is the part at `pos` of the box that is split evenly over the processor
/// grid.
pub open spec fn is_part<F: Fn(Op, Scalar, Scalar, Scalar) -> Scalar>(
    ar: F,
    config: DomainConfig,
    decomp: [i32; 3],
    pos: [i32; 3],
    r: Domain,
) -> bool {
    &&& r.boundaries_low[0] == config.x_low && r.boundaries_high[0] == config.x_high
    &&& r.boundaries_low[1] == config.y_low && r.boundaries_high[1] == config.y_high
    &&& r.boundaries_low[2] == config.z_low && r.boundaries_high[2] == config.z_high
    &&& is_difference(ar, r.size, r.boundaries_high, r.boundaries_low)
    &&& r.volume == volume_of(ar, r.size)
    &&& r.boundary_type[0] == config.boundary_x
    &&& r.boundary_type[1] == config.boundary_y
    &&& r.boundary_type[2] == config.boundary_z
    &&& r.shrink_wrap_padding == config.shrink_wrap_padding
    &&& !r.bounds_changed
    &&& r.ghost_cutoff == Scalar::zero()
    &&& forall|d: int|
        0 <= d < 3 ==> {
            &&& #[trigger] r.sub_length[d] == quotient(ar, r.size[d], int_word(decomp[d] as int))
            &&& r.sub_domain_low[d] == grid_line(
                ar,
                r.boundaries_low[d],
                r.sub_length[d],
                pos[d] as int,
            )
            &&& r.sub_domain_high[d] == grid_line(
                ar,
                r.boundaries_low[d],
                r.sub_length[d],
                1 + pos[d],
            )
        }
}

/// Splits the box evenly over the processor grid and returns the part at `proc_pos`.
pub fn decompose_domain<F: Fn(Op, Scalar, Scalar, Scalar) -> Scalar>(
    config: &DomainConfig,
    proc_decomp: [i32; 3],
    proc_pos: [i32; 3],
    ar: &F,
) -> (r: Domain)
    requires
        is_arithmetic(*ar),
        proc_pos[0] < i32::MAX && proc_pos[1] < i32::MAX && proc_pos[2] < i32::MAX,
    ensures
        is_part(*ar, *config, proc_decomp, proc_pos, r),
{
    let low: Vec3 = [config.x_low, config.y_low, config.z_low];
    let high: Vec3 = [config.x_high, config.y_high, config.z_high];
    let size: Vec3 = subtract(ar, high, low);
    let dx: Scalar = over(ar, size[0], Scalar::from_i32(proc_decomp[0]));
    let dy: Scalar = over(ar, size[1], Scalar::from_i32(proc_decomp[1]));
    let dz: Scalar = over(ar, size[2], Scalar::from_i32(proc_decomp[2]));
    let sub_domain_low: Vec3 = [
        plus(ar, low[0], times(ar, dx, Scalar::from_i32(proc_pos[0]))),
        plus(ar, low[1], times(ar, dy, Scalar::from_i32(proc_pos[1]))),
        plus(ar, low[2], times(ar, dz, Scalar::from_i32(proc_pos[2]))),
    ];
    let sub_domain_high: Vec3 = [
        plus(ar, low[0], times(ar, dx, Scalar::from_i32(1 + proc_pos[0]))),
        plus(ar, low[1], times(ar, dy, Scalar::from_i32(1 + proc_pos[1]))),
        plus(ar, low[2], times(ar, dz, Scalar::from_i32(1 + proc_pos[2]))),
    ];
    Domain {
        boundaries_low: low,
        boundaries_high: high,
        sub_domain_low,
        sub_domain_high,
        sub_length: [dx, dy, dz],
        volume: times(ar, times(ar, size[0], size[1]), size[2]),
        size,
        boundary_type: config.boundary_types(),
        shrink_wrap_padding: config.shrink_wrap_padding,
        bounds_changed: false,
        ghost_cutoff: Scalar::zero(),
    }
}

/// Parts that follow each other along an axis share a face, and no coordinate
/// lies in both.
pub proof fn neighboring_parts_share_a_face<F: Fn(Op, Scalar, Scalar, Scalar) -> Scalar>(
    ar: F,
    config: DomainConfig,
    decomp: [i32; 3],
    first: [i32; 3],
    second: [i32; 3],
    a: Domain,
    b: Domain,
    d: int,
    x: Scalar,
)
    requires
        is_part(ar, config, decomp, first, a),
        is_part(ar, config, decomp, second, b),
        0 <= d < 3,
        second[d] == first[d] + 1,
    ensures
        a.sub_domain_high[d] == b.sub_domain_low[d],
        !(x.below(a.sub_domain_high[d]) && x.at_least(b.sub_domain_low[d])),
{
    assert(a.sub_length[d] == quotient(ar, a.size[d], int_word(decomp[d] as int)));
    assert(b.sub_length[d] == quotient(ar, b.size[d], int_word(decomp[d] as int)));
    assert(a.boundaries_low[d] == b.boundaries_low[d]);
    assert(a.boundaries_high[d] == b.boundaries_high[d]);
    assert(a.size[d] == b.size[d]);
}

/// The letter for a boundary in the summary of the box.
pub fn boundary_type_char(bt: BoundaryType) -> (r: char)
    ensures
        r == match bt {
            BoundaryType::Periodic => 'p',
            BoundaryType::Fixed => 'f',
            BoundaryType::ShrinkWrap => 's',
        },
{
    match bt {
        BoundaryType::Periodic => 'p',
        BoundaryType::Fixed => 'f',
        BoundaryType::ShrinkWrap => 's',
    }
}

/// Shrink-wrapped faces follow the atoms of a single process only.
#[derive(Clone, Copy, PartialEq, Eq, Structural, Debug)]
pub enum DomainError {
    ShrinkWrapWithManyProcesses,
}

/// The domain of this process, or the reason why the box cannot be run.
pub fn domain_read_input<F: Fn(Op, Scalar, Scalar, Scalar) -> Scalar>(
    config: &DomainConfig,
    comm_size: i32,
    proc_decomp: [i32; 3],
    proc_pos: [i32; 3],
    ar: &F,
) -> (r: Result<Domain, DomainError>)
    requires
        is_arithmetic(*ar),
        proc_pos[0] < i32::MAX && proc_pos[1] < i32::MAX && proc_pos[2] < i32::MAX,
    ensures
        r is Err <==> comm_size > 1 && config.shrinks(),
        r matches Ok(d) ==> is_part(*ar, *config, proc_decomp, proc_pos, d),
{
    if comm_size > 1 && config.has_shrink_wrap() {
        Err(DomainError::ShrinkWrapWithManyProcesses)
    } else {
        Ok(decompose_domain(config, proc_decomp, proc_pos, ar))
    }
}

/// The coordinate of an atom moved back into a periodic box, and the change of
/// its image count.
pub open spec fn wrapped<F: Fn(Op, Scalar, Scalar, Scalar) -> Scalar>(
    ar: F,
    pos: Scalar,
    low: Scalar,
    size: Scalar,
) -> (Scalar, int) {
    if pos.below(low) {
        (sum(ar, pos, size), -1)
    } else if pos.at_least(sum(ar, low, size)) {
        (difference(ar, pos, size), 1)
    } else {
        (pos, 0)
    }
}

/// Moves a coordinate back into a periodic box.
pub fn wrap_periodic<F: Fn(Op, Scalar, Scalar, Scalar) -> Scalar>(
    pos: Scalar,
    low: Scalar,
    size: Scalar,
    ar: &F,
) -> (r: (Scalar, i32))
    requires
        is_arithmetic(*ar),
    ensures
        r.0 == wrapped(*ar, pos, low, size).0,
        r.1 == wrapped(*ar, pos, low, size).1,
{
    let high: Scalar = plus(ar, low, size);
    if pos.lt(low) {
        (plus(ar, pos, size), -1)
    } else if pos.ge(high) {
        (minus(ar, pos, size), 1)
    } else {
        (pos, 0)
    }
}

/// The atom lies inside the box along every axis that is not periodic.
pub open spec fn stays(domain: Domain, pos: Vec3) -> bool {
    forall|d: int|
        0 <= d < 3 && domain.boundary_type[d] != BoundaryType::Periodic ==> !(#[trigger] pos[d]).below(
            domain.boundaries_low[d],
        ) && !pos[d].at_least(domain.boundaries_high[d])
}

/// One coordinate after the periodic axes were wrapped.
pub open spec fn wrapped_axis<F: Fn(Op, Scalar, Scalar, Scalar) -> Scalar>(
    ar: F,
    domain: Domain,
    pos: Vec3,
    d: int,
) -> (Scalar, int) {
    if domain.boundary_type[d] == BoundaryType::Periodic {
        wrapped(ar, pos[d], domain.boundaries_low[d], domain.size[d])
    } else {
        (pos[d], 0)
    }
}

/// The atom after the periodic axes were wrapped.
pub open spec fn wrapped_record<F: Fn(Op, Scalar, Scalar, Scalar) -> Scalar>(
    ar: F,
    domain: Domain,
    rec: Record,
) -> Record {
    let (x, i) = wrapped_axis(ar, domain, rec.pos, 0);
    let (y, j) = wrapped_axis(ar, domain, rec.pos, 1);
    let (z, k) = wrapped_axis(ar, domain, rec.pos, 2);
    Record {
        pos: [x, y, z],
        image: [(rec.image[0] + i) as i32, (rec.image[1] + j) as i32, (rec.image[2] + k) as i32],
        ..rec
    }
}

/// Which local atoms left the box through a face that is not periodic.
pub open spec fn escaped(domain: Domain, atoms: Atom) -> Seq<bool> {
    Seq::new(atoms.nlocal as nat, |i: int| !stays(domain, atoms.pos@[i]))
}

/// The atoms with the local ones from `from` on wrapped, unless they escaped.
pub open spec fn wrapped_from<F: Fn(Op, Scalar, Scalar, Scalar) -> Scalar>(
    ar: F,
    domain: Domain,
    atoms: Atom,
    from: int,
) -> Seq<Record> {
    Seq::new(
        atoms.records().len(),
        |i: int|
            if from <= i < atoms.nlocal && stays(domain, atoms.pos@[i]) {
                wrapped_record(ar, domain, atoms.record(i))
            } else {
                atoms.record(i)
            },
    )
}

/// Image counts can still change by one.
pub open spec fn image_room(image: [i32; 3]) -> bool {
    forall|d: int| 0 <= d < 3 ==> i32::MIN < #[trigger] image[d] < i32::MAX
}

/// Wraps one atom, or returns `None` where it escaped.
fn wrap_atom<F: Fn(Op, Scalar, Scalar, Scalar) -> Scalar>(
    domain: &Domain,
    pos: Vec3,
    image: [i32; 3],
    ar: &F,
) -> (r: Option<(Vec3, [i32; 3])>)
    requires
        is_arithmetic(*ar),
        image_room(image),
    ensures
        r is Some == stays(*domain, pos),
        r matches Some(p) ==> forall|d: int|
            0 <= d < 3 ==> #[trigger] p.0[d] == wrapped_axis(*ar, *domain, pos, d).0,
        r matches Some(p) ==> forall|d: int|
            0 <= d < 3 ==> #[trigger] p.1[d] == image[d] + wrapped_axis(*ar, *domain, pos, d).1,
{
    let mut new_pos: Vec3 = pos;
    let mut new_image: [i32; 3] = image;
    let mut d: usize = 0;
    while d < 3
        invariant
            is_arithmetic(*ar),
            image_room(image),
            d <= 3,
            forall|k: int| d <= k < 3 ==> #[trigger] new_pos[k] == pos[k],
            forall|k: int| d <= k < 3 ==> #[trigger] new_image[k] == image[k],
            forall|k: int|
                0 <= k < d ==> #[trigger] new_pos[k] == wrapped_axis(*ar, *domain, pos, k).0,
            forall|k: int|
                0 <= k < d ==> #[trigger] new_image[k] == image[k] + wrapped_axis(
                    *ar,
                    *domain,
                    pos,
                    k,
                ).1,
            forall|k: int|
                0 <= k < d && domain.boundary_type[k] != BoundaryType::Periodic ==> !(
                #[trigger] pos[k]).below(domain.boundaries_low[k]) && !pos[k].at_least(
                    domain.boundaries_high[k],
                ),
        decreases 3 - d,
    {
        let x: Scalar = pos[d];
        assert(new_image[d as int] == image[d as int]);
        if domain.is_periodic(d) {
            let (y, delta): (Scalar, i32) = wrap_periodic(
                x,
                domain.boundaries_low[d],
                domain.size[d],
                ar,
            );
            new_pos[d] = y;
            new_image[d] = new_image[d] + delta;
        } else if x.lt(domain.boundaries_low[d]) || x.ge(domain.boundaries_high[d]) {
            assert(!stays(*domain, pos));
            return None;
        }
        d = d + 1;
    }
    Some((new_pos, new_image))
}

/// Wraps the local atoms along periodic axes and removes those that left the
/// box along another axis. A removal makes a full rebuild necessary.
pub fn pbc<D: AtomData, F: Fn(Op, Scalar, Scalar, Scalar) -> Scalar>(
    atoms: &mut Atom,
    domain: &Domain,
    registry: &mut AtomDataRegistry<D>,
    comm_state: &mut CommState,
    ar: &F,
)
    requires
        is_arithmetic(*ar),
        old(atoms).wf(),
        old(registry).wf(),
        old(atoms).nlocal <= old(atoms).records().len(),
        old(registry).parallel_to(old(atoms).records().len() as int),
        forall|i: int| 0 <= i < old(atoms).nlocal ==> image_room(#[trigger] old(atoms).image@[i]),
    ensures
        final(atoms).wf(),
        final(registry).wf(),
        final(atoms).records() == sweep(
            wrapped_from(*ar, *domain, *old(atoms), 0),
            escaped(*domain, *old(atoms)),
            0,
        ),
        final(atoms).nlocal == old(atoms).nlocal - leaving(escaped(*domain, *old(atoms)), 0),
        final(atoms).natoms == old(atoms).natoms,
        final(atoms).ntypes == old(atoms).ntypes,
        final(atoms).dt == old(atoms).dt,
        final(atoms).nghost == old(atoms).nghost,
        final(registry).same_stores(old(registry)),
        final(registry).parallel_to(final(atoms).records().len() as int),
        forall|k: int|
            0 <= k < old(registry).stores@.len() ==> (
            #[trigger] final(registry).stores@[k]).data.rows() == sweep(
                old(registry).stores@[k].data.rows(),
                escaped(*domain, *old(atoms)),
                0,
            ),
        *final(comm_state) == if leaving(escaped(*domain, *old(atoms)), 0) > 0 {
            CommState::FullRebuild
        } else {
            *old(comm_state)
        },
{
    let ghost start: Atom = *atoms;
    let ghost leave: Seq<bool> = escaped(*domain, *atoms);
    let nlocal: usize = atoms.nlocal as usize;
    let ghost all: int = atoms.records().len() as int;
    let mut removed: u32 = 0;
    let mut i: usize = nlocal;
    proof {
        assert(atoms.records() =~= wrapped_from(*ar, *domain, start, nlocal as int));
    }
    while i > 0
        invariant
            is_arithmetic(*ar),
            start == *old(atoms),
            start.wf(),
            start.nlocal == nlocal,
            nlocal <= all == start.records().len(),
            leave == escaped(*domain, start),
            forall|k: int| 0 <= k < nlocal ==> image_room(#[trigger] start.image@[k]),
            i <= nlocal,
            atoms.wf(),
            atoms.same_header(&start),
            registry.wf(),
            registry.same_stores(old(registry)),
            old(registry).parallel_to(all),
            removed == leaving(leave, i as int),
            removed <= nlocal - i,
            atoms.records() == sweep(
                wrapped_from(*ar, *domain, start, i as int),
                leave,
                i as int,
            ),
            registry.parallel_to(atoms.records().len() as int),
            forall|k: int|
                0 <= k < old(registry).stores@.len() ==> (#[trigger] registry.stores@[k]).data.rows()
                    == sweep(old(registry).stores@[k].data.rows(), leave, i as int),
        decreases i,
    {
        i = i - 1;
        let ghost before: Seq<Record> = wrapped_from(*ar, *domain, start, i + 1);
        let ghost after: Seq<Record> = wrapped_from(*ar, *domain, start, i as int);
        proof {
            lemma_sweep(before, leave, i + 1);
            assert(atoms.records()[i as int] == start.record(i as int));
            assert(image_room(start.image@[i as int]));
        }
        match wrap_atom(domain, atoms.pos[i], atoms.image[i], ar) {
            Some(pair) => {
                let ghost mid: Seq<Record> = atoms.records();
                atoms.pos.set(i, pair.0);
                atoms.image.set(i, pair.1);
                proof {
                    let new: Record = wrapped_record(*ar, *domain, start.record(i as int));
                    assert(pair.0 =~= new.pos);
                    assert(pair.1 =~= new.image);
                    assert(atoms.records() =~= mid.update(i as int, new));
                    assert(after =~= before.update(i as int, new));
                    crate::sweep::lemma_sweep_update(before, leave, i + 1, i as int, new);
                    assert(!leave[i as int]);
                }
            },
            None => {
                proof {
                    assert(leave[i as int]);
                    assert(after =~= before);
                }
                atoms.swap_remove(i);
                registry.swap_remove_all(i);
                removed = removed + 1;
            },
        }
    }
    if removed > 0 {
        atoms.nlocal = (nlocal - removed as usize) as u32;
        *comm_state = CommState::FullRebuild;
    }
    assert(atoms.records() =~= sweep(wrapped_from(*ar, *domain, start, 0), leave, 0));
}

/// The least coordinate along axis `d` among the first `n` atoms.
pub open spec fn lowest(positions: Seq<Vec3>, d: int, n: int) -> Scalar
    decreases n,
{
    if n <= 0 {
        Scalar::greatest()
    } else {
        let rest: Scalar = lowest(positions, d, n - 1);
        if positions[n - 1][d].below(rest) {
            positions[n - 1][d]
        } else {
            rest
        }
    }
}

/// The greatest coordinate along axis `d` among the first `n` atoms.
pub open spec fn highest(positions: Seq<Vec3>, d: int, n: int) -> Scalar
    decreases n,
{
    if n <= 0 {
        Scalar::least()
    } else {
        let rest: Scalar = highest(positions, d, n - 1);
        if rest.below(positions[n - 1][d]) {
            positions[n - 1][d]
        } else {
            rest
        }
    }
}

/// 10^-12: the change of a bound that is still ignored.
#[verifier::allow_in_spec]
pub fn tolerance() -> (r: Scalar)
    returns
        (Scalar { bits: 0x3d71_9799_812d_ea11 }),
{
    Scalar { bits: 0x3d71_9799_812d_ea11 }
}

/// One hundredth: the part of the box that is used as padding of last resort.
#[verifier::allow_in_spec]
pub fn hundredth() -> (r: Scalar)
    returns
        (Scalar { bits: 0x3f84_7ae1_47ae_147b }),
{
    Scalar { bits: 0x3f84_7ae1_47ae_147b }
}

/// The room that is left between the outermost atoms and shrink-wrapped faces.
pub open spec fn padding_of<F: Fn(Op, Scalar, Scalar, Scalar) -> Scalar>(ar: F, domain: Domain) -> Scalar {
    let zero = Scalar::zero();
    if zero.below(domain.shrink_wrap_padding) {
        domain.shrink_wrap_padding
    } else if zero.below(domain.ghost_cutoff) {
        domain.ghost_cutoff
    } else {
        let longest = domain.size[0].greater(domain.size[1]).greater(domain.size[2]);
        if zero.below(longest) {
            product(ar, longest, hundredth())
        } else {
            Scalar::one()
        }
    }
}

/// The bounds that shrink-wrapping asks for along axis `d`.
pub open spec fn fitted<F: Fn(Op, Scalar, Scalar, Scalar) -> Scalar>(
    ar: F,
    domain: Domain,
    positions: Seq<Vec3>,
    n: int,
    d: int,
) -> (Scalar, Scalar) {
    (
        difference(ar, lowest(positions, d, n), padding_of(ar, domain)),
        sum(ar, highest(positions, d, n), padding_of(ar, domain)),
    )
}

/// The bounds along axis `d` are shrink-wrapped and have moved.
pub open spec fn refits<F: Fn(Op, Scalar, Scalar, Scalar) -> Scalar>(
    ar: F,
    domain: Domain,
    positions: Seq<Vec3>,
    n: int,
    d: int,
) -> bool {
    let (low, high) = fitted(ar, domain, positions, n, d);
    &&& domain.boundary_type[d] == BoundaryType::ShrinkWrap
    &&& tolerance().below(difference(ar, low, domain.boundaries_low[d]).absolute())
        || tolerance().below(difference(ar, high, domain.boundaries_high[d]).absolute())
}

/// The bounds of `new` along axis `d` are those of `domain` after shrink-wrapping.
pub open spec fn refitted<F: Fn(Op, Scalar, Scalar, Scalar) -> Scalar>(
    ar: F,
    domain: Domain,
    new: Domain,
    positions: Seq<Vec3>,
    n: int,
    d: int,
) -> bool {
    if refits(ar, domain, positions, n, d) {
        let (low, high) = fitted(ar, domain, positions, n, d);
        &&& new.boundaries_low[d] == low && new.sub_domain_low[d] == low
        &&& new.boundaries_high[d] == high && new.sub_domain_high[d] == high
    } else {
        same_bounds(domain, new, d)
    }
}

/// The bounds along axis `d` agree.
pub open spec fn same_bounds(domain: Domain, new: Domain, d: int) -> bool {
    &&& new.boundaries_low[d] == domain.boundaries_low[d]
    &&& new.boundaries_high[d] == domain.boundaries_high[d]
    &&& new.sub_domain_low[d] == domain.sub_domain_low[d]
    &&& new.sub_domain_high[d] == domain.sub_domain_high[d]
}

/// Fits the shrink-wrapped faces to the local atoms. Returns whether a bound moved.
pub fn shrink_wrap_update<F: Fn(Op, Scalar, Scalar, Scalar) -> Scalar>(
    domain: &mut Domain,
    positions: &Vec<Vec3>,
    nlocal: usize,
    ar: &F,
) -> (r: bool)
    requires
        is_arithmetic(*ar),
        nlocal <= positions@.len(),
    ensures
        r == (nlocal > 0 && exists|d: int|
            0 <= d < 3 && #[trigger] refits(*ar, *old(domain), positions@, nlocal as int, d)),
        !r ==> *final(domain) == *old(domain),
        r ==> {
            &&& final(domain).same_settings(old(domain))
            &&& final(domain).bounds_changed
            &&& final(domain).derived(*ar)
            &&& forall|d: int|
                0 <= d < 3 ==> #[trigger] refitted(
                    *ar,
                    *old(domain),
                    *final(domain),
                    positions@,
                    nlocal as int,
                    d,
                )
        },
{
    if !(domain.is_shrink_wrap(0) || domain.is_shrink_wrap(1) || domain.is_shrink_wrap(2)) || nlocal == 0 {
        return false;
    }
    let zero: Scalar = Scalar::zero();
    let padding: Scalar = if zero.lt(domain.shrink_wrap_padding) {
        domain.shrink_wrap_padding
    } else if zero.lt(domain.ghost_cutoff) {
        domain.ghost_cutoff
    } else {
        let longest: Scalar = domain.size[0].max(domain.size[1]).max(domain.size[2]);
        if zero.lt(longest) {
            times(ar, longest, hundredth())
        } else {
            Scalar::one()
        }
    };
    let mut changed: bool = false;
    let mut d: usize = 0;
    while d < 3
        invariant
            is_arithmetic(*ar),
            0 < nlocal <= positions@.len(),
            d <= 3,
            padding == padding_of(*ar, *old(domain)),
            changed == exists|k: int|
                0 <= k < d && #[trigger] refits(*ar, *old(domain), positions@, nlocal as int, k),
            !changed ==> *domain == *old(domain),
            domain.same_settings(old(domain)),
            forall|k: int|
                0 <= k < d ==> #[trigger] refitted(
                    *ar,
                    *old(domain),
                    *domain,
                    positions@,
                    nlocal as int,
                    k,
                ),
            forall|k: int| d <= k < 3 ==> #[trigger] same_bounds(*old(domain), *domain, k),
        decreases 3 - d,
    {
        let ghost mid: Domain = *domain;
        assert(same_bounds(*old(domain), *domain, d as int));
        if domain.is_shrink_wrap(d) {
            let mut pos_min: Scalar = Scalar::greatest();
            let mut pos_max: Scalar = Scalar::least();
            let mut i: usize = 0;
            while i < nlocal
                invariant
                    d < 3,
                    i <= nlocal <= positions@.len(),
                    pos_min == lowest(positions@, d as int, i as int),
                    pos_max == highest(positions@, d as int, i as int),
                decreases nlocal - i,
            {
                let p: Scalar = positions[i][d];
                if p.lt(pos_min) {
                    pos_min = p;
                }
                if pos_max.lt(p) {
                    pos_max = p;
                }
                i = i + 1;
            }
            let new_low: Scalar = minus(ar, pos_min, padding);
            let new_high: Scalar = plus(ar, pos_max, padding);
            let low_step: Scalar = minus(ar, new_low, domain.boundaries_low[d]).abs();
            let high_step: Scalar = minus(ar, new_high, domain.boundaries_high[d]).abs();
            if tolerance().lt(low_step) || tolerance().lt(high_step) {
                assert(refits(*ar, *old(domain), positions@, nlocal as int, d as int));
                domain.boundaries_low[d] = new_low;
                domain.boundaries_high[d] = new_high;
                domain.sub_domain_low[d] = new_low;
                domain.sub_domain_high[d] = new_high;
                changed = true;
            } else {
                assert(!refits(*ar, *old(domain), positions@, nlocal as int, d as int));
            }
        } else {
            assert(!refits(*ar, *old(domain), positions@, nlocal as int, d as int));
        }
        proof {
            assert forall|k: int| 0 <= k < d implies #[trigger] refitted(
                *ar,
                *old(domain),
                *domain,
                positions@,
                nlocal as int,
                k,
            ) by {
                assert(refitted(*ar, *old(domain), mid, positions@, nlocal as int, k));
            }
            assert forall|k: int| d < k < 3 implies #[trigger] same_bounds(
                *old(domain),
                *domain,
                k,
            ) by {
                assert(same_bounds(*old(domain), mid, k));
            }
        }
        d = d + 1;
    }
    if changed {
        let ghost fit: Domain = *domain;
        domain.update_derived(ar);
        domain.bounds_changed = true;
        proof {
            assert forall|k: int| 0 <= k < 3 implies #[trigger] refitted(
                *ar,
                *old(domain),
                *domain,
                positions@,
                nlocal as int,
                k,
            ) by {
                assert(refitted(*ar, *old(domain), fit, positions@, nlocal as int, k));
            }
        }
    }
    changed
}

/// Shrink-wraps the box around the local atoms.
pub fn shrink_wrap<F: Fn(Op, Scalar, Scalar, Scalar) -> Scalar>(
    atoms: &Atom,
    domain: &mut Domain,
    ar: &F,
)
    requires
        is_arithmetic(*ar),
        atoms.nlocal <= atoms.pos@.len(),
    ensures
        (atoms.nlocal == 0 || forall|d: int|
            0 <= d < 3 ==> !#[trigger] refits(
                *ar,
                *old(domain),
                atoms.pos@,
                atoms.nlocal as int,
                d,
            )) ==> *final(domain) == *old(domain),
        (atoms.nlocal > 0 && exists|d: int|
            0 <= d < 3 && #[trigger] refits(*ar, *old(domain), atoms.pos@, atoms.nlocal as int, d))
            ==> {
            &&& final(domain).same_settings(old(domain))
            &&& final(domain).bounds_changed
            &&& final(domain).derived(*ar)
            &&& forall|d: int|
                0 <= d < 3 ==> #[trigger] refitted(
                    *ar,
                    *old(domain),
                    *final(domain),
                    atoms.pos@,
                    atoms.nlocal as int,
                    d,
                )
        },
{
    let _changed: bool = shrink_wrap_update(domain, &atoms.pos, atoms.nlocal as usize, ar);
}

} // verus!

//! Neighbour list state: when it is rebuilt, how atoms are sorted for it, and
//! how it is built.

use crate::atom::{gather, Atom, Record};
use crate::atom_data::{permuted, AtomData, AtomDataRegistry};
use crate::bins::{
    bin_atoms, lemma_sorted_is_order, order_is_stable_permutation, order_upto, start_of, Bins,
};
use crate::domain::{BoundaryType, Domain};
use crate::exact::{exact_quotient, num};
use crate::geometry::{apart, point_of};
use crate::neighbor_list::{
    list_neighbors, low32, pairs_from, rows, stencil_fits, walkable, within_reach, Csr, PairIter,
};
use crate::reach::{close_pairs_are_within_their_reach, exact_apart, exact_reach};
use crate::scalar::{
    clamp_int, difference, int_word, is_arithmetic, minus, over, plus, product, quotient, sum,
    times, Op, Scalar, Vec3,
};
use crate::stencil::{
    build_stencil, cell_offset, grid_ok, positive, stencil_of, within_cutoff, Stencil,
};
use crate::text::{decimal, digits, is_rendering, render, rendered, Style};
use crate::CommState;
use vstd::prelude::*;
use vstd::string::*;

verus! {

/// The user's choices for the neighbour list.
#[derive(Clone, Copy, Debug)]
pub struct NeighborConfig {
    pub skin_fraction: Scalar,
    pub bin_size: Scalar,
    pub every: usize,
    pub check: bool,
    pub sort_every: usize,
    pub newton: bool,
}

impl Default for NeighborConfig {
    fn default() -> (r: Self)
        ensures
            r.skin_fraction == Scalar::one(),
            r.bin_size == Scalar::one(),
            r.every == 0,
            r.check,
            r.sort_every == 1000,
            r.newton,
    {
        NeighborConfig {
            skin_fraction: Scalar::one(),
            bin_size: Scalar::one(),
            every: 0,
            check: true,
            sort_every: 1000,
            newton: true,
        }
    }
}

/// The neighbour list, the bin grid it is built with, and what decides when it
/// is rebuilt.
///
/// The neighbours of local atom `i` are the entries
/// `neighbor_offsets[i]..neighbor_offsets[i + 1]` of `neighbor_indices`.
pub struct Neighbor {
    pub skin_fraction: Scalar,
    pub neighbor_offsets: Vec<u32>,
    pub neighbor_indices: Vec<u32>,
    pub bin_min_size: Scalar,
    pub bin_size: Vec3,
    pub bin_count: [i32; 3],
    pub last_build_pos: Vec<Vec3>,
    pub steps_since_build: usize,
    pub last_build_total: usize,
    pub pbc_box: Vec3,
    pub pbc_flags: [bool; 3],
    pub bin_stencil: Vec<i32>,
    pub bin_stencil_forward: Vec<i32>,
    pub bin_stencil_self: bool,
    pub bin_origin: Vec3,
    pub bin_total_cells: usize,
    pub every: usize,
    pub check: bool,
    pub ghost_cutoff: Scalar,
    pub cached_min_skin: Scalar,
    pub sort_every: usize,
    pub sort_counter: usize,
    pub bin_atom_cell: Vec<u32>,
    pub bin_count_arr: Vec<u32>,
    pub bin_start: Vec<u32>,
    pub bin_sorted_atoms: Vec<u32>,
    pub bin_atom_sorted_idx: Vec<u32>,
    pub bin_sorted_pos: Vec<Vec3>,
    pub cached_uniform_cutoff_sq: Option<Scalar>,
    pub cached_max_cutoff: Scalar,
    pub newton: bool,
}

impl Neighbor {
    /// The choices that no rebuild changes.
    pub open spec fn same_settings(&self, other: &Neighbor) -> bool {
        &&& self.skin_fraction == other.skin_fraction
        &&& self.bin_min_size == other.bin_min_size
        &&& self.every == other.every
        &&& self.check == other.check
        &&& self.sort_every == other.sort_every
        &&& self.newton == other.newton
        &&& self.ghost_cutoff == other.ghost_cutoff
        &&& self.cached_max_cutoff == other.cached_max_cutoff
        &&& self.pbc_flags == other.pbc_flags
    }

    /// The bin grid and its stencil.
    pub open spec fn same_grid(&self, other: &Neighbor) -> bool {
        &&& self.bin_size == other.bin_size
        &&& self.bin_count == other.bin_count
        &&& self.bin_stencil == other.bin_stencil
        &&& self.bin_stencil_forward == other.bin_stencil_forward
        &&& self.bin_stencil_self == other.bin_stencil_self
        &&& self.bin_origin == other.bin_origin
        &&& self.bin_total_cells == other.bin_total_cells
        &&& self.pbc_box == other.pbc_box
    }

    /// The list and the sorted atoms.
    pub open spec fn same_list(&self, other: &Neighbor) -> bool {
        &&& self.neighbor_offsets == other.neighbor_offsets
        &&& self.neighbor_indices == other.neighbor_indices
        &&& self.bin_atom_cell == other.bin_atom_cell
        &&& self.bin_count_arr == other.bin_count_arr
        &&& self.bin_start == other.bin_start
        &&& self.bin_sorted_atoms == other.bin_sorted_atoms
        &&& self.bin_atom_sorted_idx == other.bin_atom_sorted_idx
        &&& self.bin_sorted_pos == other.bin_sorted_pos
    }

    /// What is remembered of the last build.
    pub open spec fn same_history(&self, other: &Neighbor) -> bool {
        &&& self.last_build_pos == other.last_build_pos
        &&& self.steps_since_build == other.steps_since_build
        &&& self.last_build_total == other.last_build_total
        &&& self.cached_min_skin == other.cached_min_skin
        &&& self.cached_uniform_cutoff_sq == other.cached_uniform_cutoff_sq
    }

    /// The grid has cells, no more than an `i32` counts, and `bin_total_cells` counts them.
    pub open spec fn grid_valid(&self) -> bool {
        &&& self.bin_count[0] >= 1 && self.bin_count[1] >= 1 && self.bin_count[2] >= 1
        &&& self.bin_count[0] * (self.bin_count[1] * self.bin_count[2]) <= i32::MAX
        &&& self.bin_total_cells == self.bin_count[0] * (self.bin_count[1] * self.bin_count[2])
    }

    /// No grid and no list.
    pub fn new() -> (r: Neighbor)
        ensures
            r.skin_fraction == Scalar::one(),
            r.neighbor_offsets@.len() == 0,
            r.neighbor_indices@.len() == 0,
            r.bin_min_size == Scalar::one(),
            r.bin_size[0] == Scalar::one() && r.bin_size[1] == Scalar::one() && r.bin_size[2]
                == Scalar::one(),
            r.bin_count[0] == 1 && r.bin_count[1] == 1 && r.bin_count[2] == 1,
            r.last_build_pos@.len() == 0,
            r.steps_since_build == 0,
            r.last_build_total == 0,
            !r.pbc_flags[0] && !r.pbc_flags[1] && !r.pbc_flags[2],
            r.bin_stencil@.len() == 0,
            r.bin_stencil_forward@.len() == 0,
            !r.bin_stencil_self,
            r.bin_total_cells == 0,
            r.every == 0,
            r.check,
            r.ghost_cutoff == Scalar::zero(),
            r.cached_min_skin == Scalar::greatest(),
            r.sort_every == 1000,
            r.sort_counter == 0,
            crate::domain::all_are(r.pbc_box, Scalar::zero()),
            crate::domain::all_are(r.bin_origin, Scalar::zero()),
            r.bin_atom_cell@.len() == 0,
            r.bin_count_arr@.len() == 0,
            r.bin_start@.len() == 0,
            r.bin_sorted_atoms@.len() == 0,
            r.bin_atom_sorted_idx@.len() == 0,
            r.bin_sorted_pos@.len() == 0,
            r.cached_uniform_cutoff_sq is None,
            r.cached_max_cutoff == Scalar::zero(),
            r.newton,
    {
        let zero: Scalar = Scalar::zero();
        let one: Scalar = Scalar::one();
        Neighbor {
            skin_fraction: one,
            neighbor_offsets: Vec::new(),
            neighbor_indices: Vec::new(),
            bin_min_size: one,
            bin_size: [one, one, one],
            bin_count: [1, 1, 1],
            last_build_pos: Vec::new(),
            steps_since_build: 0,
            last_build_total: 0,
            pbc_box: [zero, zero, zero],
            pbc_flags: [false, false, false],
            bin_stencil: Vec::new(),
            bin_stencil_forward: Vec::new(),
            bin_stencil_self: false,
            bin_origin: [zero, zero, zero],
            bin_total_cells: 0,
            every: 0,
            check: true,
            ghost_cutoff: zero,
            cached_min_skin: Scalar::greatest(),
            sort_every: 1000,
            sort_counter: 0,
            bin_atom_cell: Vec::new(),
            bin_count_arr: Vec::new(),
            bin_start: Vec::new(),
            bin_sorted_atoms: Vec::new(),
            bin_atom_sorted_idx: Vec::new(),
            bin_sorted_pos: Vec::new(),
            cached_uniform_cutoff_sq: None,
            cached_max_cutoff: zero,
            newton: true,
        }
    }
}

/// Takes the user's choices over.
pub fn neighbor_read_input(config: &NeighborConfig, neighbor: &mut Neighbor)
    ensures
        final(neighbor).skin_fraction == config.skin_fraction,
        final(neighbor).bin_min_size == config.bin_size,
        final(neighbor).every == config.every,
        final(neighbor).check == config.check,
        final(neighbor).sort_every == config.sort_every,
        final(neighbor).newton == config.newton,
        final(neighbor).same_grid(old(neighbor)),
        final(neighbor).same_list(old(neighbor)),
        final(neighbor).same_history(old(neighbor)),
        final(neighbor).ghost_cutoff == old(neighbor).ghost_cutoff,
        final(neighbor).cached_max_cutoff == old(neighbor).cached_max_cutoff,
        final(neighbor).pbc_flags == old(neighbor).pbc_flags,
        final(neighbor).sort_counter == old(neighbor).sort_counter,
{
    neighbor.skin_fraction = config.skin_fraction;
    neighbor.bin_min_size = config.bin_size;
    neighbor.every = config.every;
    neighbor.check = config.check;
    neighbor.sort_every = config.sort_every;
    neighbor.newton = config.newton;
}

/// When lists are rebuilt, in words.
pub open spec fn rebuild_rule(config: NeighborConfig) -> Seq<char> {
    if config.every == 0 {
        "displacement"@
    } else if config.check {
        "every "@ + digits(config.every as nat) + " + check"@
    } else {
        "every "@ + digits(config.every as nat)
    }
}

/// The line that reports the user's choices.
pub fn neighbor_report<R: Fn(Style, Scalar) -> String>(config: &NeighborConfig, show: &R) -> (r: String)
    requires
        is_rendering(*show),
    ensures
        r@ == "Neighbor: skin_fraction="@ + rendered(*show, Style::Plain, config.skin_fraction)
            + " bin_size="@ + rendered(*show, Style::Plain, config.bin_size) + " rebuild="@
            + rebuild_rule(*config) + " newton="@ + (if config.newton {
            "on"@
        } else {
            "off"@
        }),
{
    let mut out: String = "Neighbor: skin_fraction=".to_owned();
    let skin: String = render(show, Style::Plain, config.skin_fraction);
    out.append(skin.as_str());
    out.append(" bin_size=");
    let size: String = render(show, Style::Plain, config.bin_size);
    out.append(size.as_str());
    out.append(" rebuild=");
    let mut rule: String = "displacement".to_owned();
    if config.every != 0 {
        rule = "every ".to_owned();
        let number: String = decimal(config.every as u64);
        rule.append(number.as_str());
        if config.check {
            rule.append(" + check");
        }
    }
    out.append(rule.as_str());
    out.append(" newton=");
    out.append(
        if config.newton {
            "on"
        } else {
            "off"
        },
    );
    out
}

/// 10^-15: the spread of radii up to which all count as equal.
#[verifier::allow_in_spec]
pub fn radius_spread() -> (r: Scalar)
    returns
        (Scalar { bits: 0x3cd2_03af_9ee7_5616 }),
{
    Scalar { bits: 0x3cd2_03af_9ee7_5616 }
}

/// The least of the first `n` radii.
pub open spec fn least_radius(radius: Seq<Scalar>, n: int) -> Scalar
    decreases n,
{
    if n <= 0 {
        Scalar::greatest()
    } else {
        least_radius(radius, n - 1).smaller(radius[n - 1])
    }
}

/// The greatest of the first `n` radii, or `from` where all are below it.
pub open spec fn greatest_radius(radius: Seq<Scalar>, from: Scalar, n: int) -> Scalar
    decreases n,
{
    if n <= 0 {
        from
    } else {
        greatest_radius(radius, from, n - 1).greater(radius[n - 1])
    }
}

/// The least and the greatest of the first `n` radii, the greatest from `from` on.
pub fn radius_range(radius: &Vec<Scalar>, from: Scalar, n: usize) -> (r: (Scalar, Scalar))
    requires
        n <= radius@.len(),
    ensures
        r.0 == least_radius(radius@, n as int),
        r.1 == greatest_radius(radius@, from, n as int),
{
    let mut low: Scalar = Scalar::greatest();
    let mut high: Scalar = from;
    let mut i: usize = 0;
    while i < n
        invariant
            i <= n <= radius@.len(),
            low == least_radius(radius@, i as int),
            high == greatest_radius(radius@, from, i as int),
        decreases n - i,
    {
        low = low.min(radius[i]);
        high = high.max(radius[i]);
        i = i + 1;
    }
    (low, high)
}

/// The common squared cutoff, where the radii are equal.
pub open spec fn uniform_cutoff<F: Fn(Op, Scalar, Scalar, Scalar) -> Scalar>(
    ar: F,
    radius: Seq<Scalar>,
    n: int,
    skin_fraction: Scalar,
) -> Option<Scalar> {
    let low = least_radius(radius, n);
    let high = greatest_radius(radius, Scalar::least(), n);
    if difference(ar, high, low).absolute().below(radius_spread()) {
        let cutoff = product(ar, product(ar, Scalar::two(), low), skin_fraction);
        Some(product(ar, cutoff, cutoff))
    } else {
        None
    }
}

/// Remembers where the local atoms are.
pub fn save_build_positions<F: Fn(Op, Scalar, Scalar, Scalar) -> Scalar>(
    atoms: &Atom,
    neighbor: &mut Neighbor,
    ar: &F,
)
    requires
        is_arithmetic(*ar),
        atoms.wf(),
        atoms.nlocal <= atoms.records().len(),
    ensures
        final(neighbor).last_build_pos@ == atoms.pos@.take(atoms.nlocal as int),
        final(neighbor).last_build_total == atoms.records().len(),
        final(neighbor).steps_since_build == 0,
        final(neighbor).cached_min_skin == least_radius(atoms.cutoff_radius@, atoms.nlocal as int),
        final(neighbor).cached_uniform_cutoff_sq == uniform_cutoff(
            *ar,
            atoms.cutoff_radius@,
            atoms.nlocal as int,
            old(neighbor).skin_fraction,
        ),
        final(neighbor).same_settings(old(neighbor)),
        final(neighbor).same_grid(old(neighbor)),
        final(neighbor).same_list(old(neighbor)),
        final(neighbor).sort_counter == old(neighbor).sort_counter,
{
    let nlocal: usize = atoms.nlocal as usize;
    let mut saved: Vec<Vec3> = Vec::with_capacity(nlocal);
    let mut i: usize = 0;
    while i < nlocal
        invariant
            i <= nlocal <= atoms.pos@.len(),
            saved@ == atoms.pos@.take(i as int),
        decreases nlocal - i,
    {
        saved.push(atoms.pos[i]);
        i = i + 1;
        assert(saved@ =~= atoms.pos@.take(i as int));
    }
    neighbor.last_build_pos = saved;
    neighbor.last_build_total = atoms.len();
    neighbor.steps_since_build = 0;
    let (low, high): (Scalar, Scalar) = radius_range(
        &atoms.cutoff_radius,
        Scalar::least(),
        nlocal,
    );
    neighbor.cached_min_skin = low;
    neighbor.cached_uniform_cutoff_sq =
    if minus(ar, high, low).abs().lt(radius_spread()) {
        let cutoff: Scalar = times(ar, times(ar, Scalar::two(), low), neighbor.skin_fraction);
        Some(times(ar, cutoff, cutoff))
    } else {
        None
    };
}

/// The displacement along one axis, to the nearest image where it is periodic.
pub open spec fn displacement<F: Fn(Op, Scalar, Scalar, Scalar) -> Scalar>(
    ar: F,
    neighbor: Neighbor,
    from: Vec3,
    to: Vec3,
    d: int,
) -> Scalar {
    let half = product(ar, neighbor.pbc_box[d], Scalar::half());
    let delta = difference(ar, to[d], from[d]);
    if neighbor.pbc_flags[d] && half.below(delta) {
        difference(ar, delta, neighbor.pbc_box[d])
    } else if neighbor.pbc_flags[d] && delta.below(half.negated()) {
        sum(ar, delta, neighbor.pbc_box[d])
    } else {
        delta
    }
}

/// The distance that an atom may move before the list is rebuilt, squared.
pub open spec fn threshold_squared<F: Fn(Op, Scalar, Scalar, Scalar) -> Scalar>(
    ar: F,
    neighbor: Neighbor,
) -> Scalar {
    let skin = product(
        ar,
        difference(ar, neighbor.skin_fraction, Scalar::one()),
        neighbor.cached_min_skin,
    );
    product(ar, skin, skin)
}

/// Atom `i` moved too far since the last build.
pub open spec fn moved_too_far<F: Fn(Op, Scalar, Scalar, Scalar) -> Scalar>(
    ar: F,
    neighbor: Neighbor,
    pos: Seq<Vec3>,
    i: int,
) -> bool {
    let from = neighbor.last_build_pos@[i];
    let dx = displacement(ar, neighbor, from, pos[i], 0);
    let dy = displacement(ar, neighbor, from, pos[i], 1);
    let dz = displacement(ar, neighbor, from, pos[i], 2);
    threshold_squared(ar, neighbor).below(
        sum(ar, sum(ar, product(ar, dx, dx), product(ar, dy, dy)), product(ar, dz, dz)),
    )
}

/// Some atom moved too far since the last build.
pub open spec fn any_moved<F: Fn(Op, Scalar, Scalar, Scalar) -> Scalar>(
    ar: F,
    neighbor: Neighbor,
    pos: Seq<Vec3>,
) -> bool {
    exists|i: int|
        0 <= i < neighbor.last_build_pos@.len() && #[trigger] moved_too_far(ar, neighbor, pos, i)
}

fn axis_displacement<F: Fn(Op, Scalar, Scalar, Scalar) -> Scalar>(
    neighbor: &Neighbor,
    from: Vec3,
    to: Vec3,
    d: usize,
    ar: &F,
) -> (r: Scalar)
    requires
        is_arithmetic(*ar),
        d < 3,
    ensures
        r == displacement(*ar, *neighbor, from, to, d as int),
{
    let side: Scalar = neighbor.pbc_box[d];
    let half: Scalar = times(ar, side, Scalar::half());
    let delta: Scalar = minus(ar, to[d], from[d]);
    if neighbor.pbc_flags[d] {
        if half.lt(delta) {
            return minus(ar, delta, side);
        } else if delta.lt(half.neg()) {
            return plus(ar, delta, side);
        }
    }
    delta
}

/// Whether some atom moved too far since the last build.
pub fn displacement_exceeded<F: Fn(Op, Scalar, Scalar, Scalar) -> Scalar>(
    atoms: &Atom,
    neighbor: &Neighbor,
    ar: &F,
) -> (r: bool)
    requires
        is_arithmetic(*ar),
        neighbor.last_build_pos@.len() <= atoms.pos@.len(),
    ensures
        r == any_moved(*ar, *neighbor, atoms.pos@),
{
    let skin: Scalar = times(
        ar,
        minus(ar, neighbor.skin_fraction, Scalar::one()),
        neighbor.cached_min_skin,
    );
    let threshold_sq: Scalar = times(ar, skin, skin);
    let mut i: usize = 0;
    while i < neighbor.last_build_pos.len()
        invariant
            is_arithmetic(*ar),
            neighbor.last_build_pos@.len() <= atoms.pos@.len(),
            i <= neighbor.last_build_pos@.len(),
            threshold_sq == threshold_squared(*ar, *neighbor),
            forall|k: int| 0 <= k < i ==> !#[trigger] moved_too_far(*ar, *neighbor, atoms.pos@, k),
        decreases neighbor.last_build_pos.len() - i,
    {
        let from: Vec3 = neighbor.last_build_pos[i];
        let to: Vec3 = atoms.pos[i];
        let dx: Scalar = axis_displacement(neighbor, from, to, 0, ar);
        let dy: Scalar = axis_displacement(neighbor, from, to, 1, ar);
        let dz: Scalar = axis_displacement(neighbor, from, to, 2, ar);
        let d2: Scalar = plus(ar, plus(ar, times(ar, dx, dx), times(ar, dy, dy)), times(ar, dz, dz));
        if threshold_sq.lt(d2) {
            assert(moved_too_far(*ar, *neighbor, atoms.pos@, i as int));
            return true;
        }
        i = i + 1;
    }
    false
}

/// The list has to be rebuilt: it fits no longer, a rebuild was asked for, it
/// is old, or some atom moved too far.
pub open spec fn stale<F: Fn(Op, Scalar, Scalar, Scalar) -> Scalar>(
    ar: F,
    atoms: Atom,
    neighbor: Neighbor,
    comm_state: CommState,
) -> bool {
    ||| neighbor.last_build_pos@.len() != atoms.nlocal
    ||| atoms.nlocal == 0
    ||| comm_state == CommState::FullRebuild
    ||| neighbor.every > 0 && neighbor.steps_since_build >= neighbor.every
    ||| (neighbor.every == 0 || neighbor.check) && any_moved(ar, neighbor, atoms.pos@)
}

/// Whether the list has to be rebuilt.
pub fn needs_rebuild<F: Fn(Op, Scalar, Scalar, Scalar) -> Scalar>(
    atoms: &Atom,
    neighbor: &Neighbor,
    comm_state: CommState,
    ar: &F,
) -> (r: bool)
    requires
        is_arithmetic(*ar),
        atoms.nlocal <= atoms.pos@.len(),
    ensures
        r == stale(*ar, *atoms, *neighbor, comm_state),
{
    let nlocal: usize = atoms.nlocal as usize;
    if neighbor.last_build_pos.len() != nlocal || nlocal == 0 {
        return true;
    }
    if comm_state == CommState::FullRebuild {
        return true;
    }
    if neighbor.every == 0 {
        displacement_exceeded(atoms, neighbor, ar)
    } else if neighbor.check {
        neighbor.steps_since_build >= neighbor.every || displacement_exceeded(atoms, neighbor, ar)
    } else {
        neighbor.steps_since_build >= neighbor.every
    }
}

/// Atom `i` is about to be wrapped around a periodic face.
pub open spec fn crossing(atoms: Atom, domain: Domain, i: int) -> bool {
    exists|d: int|
        0 <= d < 3 && domain.boundary_type[d] == BoundaryType::Periodic && ((
        #[trigger] atoms.pos@[i][d]).below(domain.boundaries_low[d]) || atoms.pos@[i][d].at_least(
            domain.boundaries_high[d],
        ))
}

/// Whether a local atom is about to be wrapped around a periodic face.
pub fn any_crossing(atoms: &Atom, domain: &Domain) -> (r: bool)
    requires
        atoms.nlocal <= atoms.pos@.len(),
    ensures
        r == exists|i: int| 0 <= i < atoms.nlocal && #[trigger] crossing(*atoms, *domain, i),
{
    let mut i: usize = 0;
    while i < atoms.nlocal as usize
        invariant
            i <= atoms.nlocal <= atoms.pos@.len(),
            forall|k: int| 0 <= k < i ==> !#[trigger] crossing(*atoms, *domain, k),
        decreases atoms.nlocal - i,
    {
        let mut d: usize = 0;
        while d < 3
            invariant
                d <= 3,
                i < atoms.nlocal <= atoms.pos@.len(),
                forall|k: int|
                    0 <= k < d && domain.boundary_type[k] == BoundaryType::Periodic ==> !(
                    #[trigger] atoms.pos@[i as int][k]).below(domain.boundaries_low[k])
                        && !atoms.pos@[i as int][k].at_least(domain.boundaries_high[k]),
            decreases 3 - d,
        {
            let x: Scalar = atoms.pos[i][d];
            if domain.is_periodic(d) && (x.lt(domain.boundaries_low[d]) || x.ge(
                domain.boundaries_high[d],
            )) {
                assert(crossing(*atoms, *domain, i as int));
                return true;
            }
            d = d + 1;
        }
        i = i + 1;
    }
    false
}

/// Whether this process asks for a rebuild.
pub fn decide_rebuild<F: Fn(Op, Scalar, Scalar, Scalar) -> Scalar>(
    atoms: &Atom,
    neighbor: &Neighbor,
    domain: &Domain,
    comm_state: CommState,
    ar: &F,
) -> (r: bool)
    requires
        is_arithmetic(*ar),
        atoms.nlocal <= atoms.pos@.len(),
    ensures
        r == (stale(*ar, *atoms, *neighbor, comm_state) || exists|i: int|
            0 <= i < atoms.nlocal && #[trigger] crossing(*atoms, *domain, i)),
        stale(*ar, *atoms, *neighbor, comm_state) ==> r,
        forall|i: int| 0 <= i < atoms.nlocal && #[trigger] crossing(*atoms, *domain, i) ==> r,
{
    needs_rebuild(atoms, neighbor, comm_state, ar) || any_crossing(atoms, domain)
}

/// Acts on the answer of all processes: one that asks for a rebuild is enough.
pub fn apply_rebuild_decision(neighbor: &mut Neighbor, comm_state: &mut CommState, any_needs: bool)
    requires
        !any_needs ==> old(neighbor).steps_since_build < usize::MAX,
    ensures
        any_needs ==> *final(comm_state) == CommState::FullRebuild && *final(neighbor)
            == *old(neighbor),
        !any_needs ==> *final(comm_state) == *old(comm_state) && *final(neighbor) == (Neighbor {
            steps_since_build: (old(neighbor).steps_since_build + 1) as usize,
            ..*old(neighbor)
        }),
{
    if any_needs {
        *comm_state = CommState::FullRebuild;
    } else {
        neighbor.steps_since_build = neighbor.steps_since_build + 1;
    }
}

/// The cell along one axis, brought into the grid.
pub open spec fn axis_cell<F: Fn(Op, Scalar, Scalar, Scalar) -> Scalar>(
    ar: F,
    neighbor: Neighbor,
    pos: Vec3,
    d: int,
) -> int {
    let inverse = quotient(ar, Scalar::one(), neighbor.bin_size[d]);
    let c = clamp_int(
        product(ar, difference(ar, pos[d], neighbor.bin_origin[d]), inverse).floor(),
        i32::MIN as int,
        i32::MAX as int,
    );
    clamp_int(c, 0, neighbor.bin_count[d] - 1)
}

/// The cell of a position, numbered row by row.
pub open spec fn cell_of<F: Fn(Op, Scalar, Scalar, Scalar) -> Scalar>(
    ar: F,
    neighbor: Neighbor,
    pos: Vec3,
) -> int {
    cell_offset(
        neighbor.bin_count,
        axis_cell(ar, neighbor, pos, 0),
        axis_cell(ar, neighbor, pos, 1),
        axis_cell(ar, neighbor, pos, 2),
    )
}

/// The cells of the first `n` atoms.
pub open spec fn cells_of<F: Fn(Op, Scalar, Scalar, Scalar) -> Scalar>(
    ar: F,
    neighbor: Neighbor,
    pos: Seq<Vec3>,
    n: int,
) -> Seq<u32> {
    Seq::new(n as nat, |i: int| cell_of(ar, neighbor, pos[i]) as u32)
}

pub proof fn lemma_cell_bound<F: Fn(Op, Scalar, Scalar, Scalar) -> Scalar>(
    ar: F,
    neighbor: Neighbor,
    pos: Vec3,
)
    requires
        neighbor.grid_valid(),
    ensures
        ({
            let (x, y, z) = (
                axis_cell(ar, neighbor, pos, 0),
                axis_cell(ar, neighbor, pos, 1),
                axis_cell(ar, neighbor, pos, 2),
            );
            let (b, c) = (neighbor.bin_count[1] as int, neighbor.bin_count[2] as int);
            &&& 0 <= x * b <= i32::MAX
            &&& 0 <= x * b * c <= i32::MAX
            &&& x * b * c == x * (b * c)
            &&& 0 <= y * c <= i32::MAX
            &&& 0 <= x * b * c + y * c <= i32::MAX
        }),
        0 <= cell_of(ar, neighbor, pos) < neighbor.bin_total_cells,
{
    let (x, y, z): (int, int, int) = (
        axis_cell(ar, neighbor, pos, 0),
        axis_cell(ar, neighbor, pos, 1),
        axis_cell(ar, neighbor, pos, 2),
    );
    let (a, b, c): (int, int, int) = (
        neighbor.bin_count[0] as int,
        neighbor.bin_count[1] as int,
        neighbor.bin_count[2] as int,
    );
    let m: int = b * c;
    assert(0 <= y * c && y * c + c <= m) by (nonlinear_arith)
        requires
            0 <= y < b,
            c >= 1,
            m == b * c,
    ;
    assert(0 <= x * m && x * m + m <= a * m) by (nonlinear_arith)
        requires
            0 <= x < a,
            m >= 0,
    ;
    assert(0 <= x * b <= x * m && x * b * c == x * (b * c)) by (nonlinear_arith)
        requires
            0 <= x,
            b >= 1,
            c >= 1,
            m == b * c,
    ;
}

fn axis_cell_index<F: Fn(Op, Scalar, Scalar, Scalar) -> Scalar>(
    neighbor: &Neighbor,
    pos: Vec3,
    d: usize,
    ar: &F,
) -> (r: i32)
    requires
        is_arithmetic(*ar),
        d < 3,
        neighbor.bin_count[d as int] >= 1,
    ensures
        r == axis_cell(*ar, *neighbor, pos, d as int),
{
    let inverse: Scalar = over(ar, Scalar::one(), neighbor.bin_size[d]);
    let c: i32 = times(ar, minus(ar, pos[d], neighbor.bin_origin[d]), inverse).floor_i32();
    let last: i32 = neighbor.bin_count[d] - 1;
    if c < 0 {
        0
    } else if c > last {
        last
    } else {
        c
    }
}

/// The cells of the first `n` atoms.
pub fn assign_cells<F: Fn(Op, Scalar, Scalar, Scalar) -> Scalar>(
    neighbor: &Neighbor,
    pos: &Vec<Vec3>,
    n: usize,
    ar: &F,
) -> (r: Vec<u32>)
    requires
        is_arithmetic(*ar),
        neighbor.grid_valid(),
        n <= pos@.len(),
    ensures
        r@ == cells_of(*ar, *neighbor, pos@, n as int),
        forall|i: int| 0 <= i < n ==> #[trigger] r@[i] < neighbor.bin_total_cells,
{
    let mut out: Vec<u32> = Vec::with_capacity(n);
    let mut i: usize = 0;
    while i < n
        invariant
            is_arithmetic(*ar),
            neighbor.grid_valid(),
            i <= n <= pos@.len(),
            out@ == cells_of(*ar, *neighbor, pos@, i as int),
            forall|k: int| 0 <= k < i ==> #[trigger] out@[k] < neighbor.bin_total_cells,
        decreases n - i,
    {
        let p: Vec3 = pos[i];
        proof {
            lemma_cell_bound(*ar, *neighbor, p);
        }
        let cx: i32 = axis_cell_index(neighbor, p, 0, ar);
        let cy: i32 = axis_cell_index(neighbor, p, 1, ar);
        let cz: i32 = axis_cell_index(neighbor, p, 2, ar);
        let ny: i32 = neighbor.bin_count[1];
        let nz: i32 = neighbor.bin_count[2];
        let cell: u32 = (cx * ny * nz + cy * nz + cz) as u32;
        out.push(cell);
        i = i + 1;
        assert(out@ =~= cells_of(*ar, *neighbor, pos@, i as int));
    }
    out
}

/// The bin size that a cutoff asks for: several processes need finer bins.
pub open spec fn required_bin<F: Fn(Op, Scalar, Scalar, Scalar) -> Scalar>(
    ar: F,
    max_cutoff: Scalar,
    comm_size: i32,
) -> Scalar {
    if comm_size > 1 {
        product(ar, max_cutoff, Scalar::half())
    } else {
        max_cutoff
    }
}

/// The interior bins along an axis of length `length`, at least one.
pub open spec fn interior_bins<F: Fn(Op, Scalar, Scalar, Scalar) -> Scalar>(
    ar: F,
    length: Scalar,
    min_bin: Scalar,
) -> int {
    let f = clamp_int(
        quotient(ar, length, min_bin).floor(),
        i32::MIN as int,
        i32::MAX as int,
    );
    if f < 1 {
        1
    } else {
        f
    }
}

/// The bins that a distance spans.
pub open spec fn bins_spanned<F: Fn(Op, Scalar, Scalar, Scalar) -> Scalar>(
    ar: F,
    distance: Scalar,
    bin: Scalar,
) -> int {
    clamp_int(quotient(ar, distance, bin).ceiling(), i32::MIN as int, i32::MAX as int)
}

/// The interior bins, their size and the ghost layers of a grid.
pub struct GridPlan {
    pub interior: [i32; 3],
    pub bin_size: Vec3,
    pub layers: [i64; 3],
}

/// What the cutoffs and the lengths ask of the grid along axis `d`.
pub open spec fn planned<F: Fn(Op, Scalar, Scalar, Scalar) -> Scalar>(
    ar: F,
    neighbor: Neighbor,
    domain: Domain,
    comm_size: i32,
    plan: GridPlan,
    d: int,
) -> bool {
    let cutoff = neighbor.cached_max_cutoff;
    let min_bin = neighbor.bin_min_size.greater(required_bin(ar, cutoff, comm_size));
    let reach = if cutoff.below(domain.ghost_cutoff) {
        domain.ghost_cutoff
    } else {
        cutoff
    };
    &&& plan.interior[d] == interior_bins(ar, domain.sub_length[d], min_bin)
    &&& plan.bin_size[d] == quotient(
        ar,
        domain.sub_length[d],
        int_word(plan.interior[d] as int),
    )
    &&& plan.layers[d] == bins_spanned(ar, reach, plan.bin_size[d]) + bins_spanned(
        ar,
        cutoff,
        plan.bin_size[d],
    )
}

/// What the cutoffs and the lengths ask of the grid.
pub open spec fn is_plan<F: Fn(Op, Scalar, Scalar, Scalar) -> Scalar>(
    ar: F,
    neighbor: Neighbor,
    domain: Domain,
    comm_size: i32,
    plan: GridPlan,
) -> bool {
    forall|d: int| 0 <= d < 3 ==> #[trigger] planned(ar, neighbor, domain, comm_size, plan, d)
}

impl GridPlan {
    /// The bins along axis `d`, ghost layers included.
    pub open spec fn bins(&self, d: int) -> int {
        self.interior[d] + 2 * self.layers[d]
    }

    /// The layers are no negative number and an `i32` counts the cells.
    pub open spec fn fits(&self) -> bool {
        &&& 0 <= self.layers[0] <= i32::MAX
        &&& 0 <= self.layers[1] <= i32::MAX
        &&& 0 <= self.layers[2] <= i32::MAX
        &&& self.bins(0) * (self.bins(1) * self.bins(2)) <= i32::MAX
    }
}

/// Plans the bin grid.
pub fn plan_grid<F: Fn(Op, Scalar, Scalar, Scalar) -> Scalar>(
    neighbor: &Neighbor,
    domain: &Domain,
    comm_size: i32,
    ar: &F,
) -> (r: GridPlan)
    requires
        is_arithmetic(*ar),
    ensures
        is_plan(*ar, *neighbor, *domain, comm_size, r),
        r.interior[0] >= 1 && r.interior[1] >= 1 && r.interior[2] >= 1,
{
    let cutoff: Scalar = neighbor.cached_max_cutoff;
    let needed: Scalar = if comm_size > 1 {
        times(ar, cutoff, Scalar::half())
    } else {
        cutoff
    };
    let min_bin: Scalar = neighbor.bin_min_size.max(needed);
    let ghost_cut: Scalar = if cutoff.lt(domain.ghost_cutoff) {
        domain.ghost_cutoff
    } else {
        cutoff
    };
    let mut plan: GridPlan = GridPlan {
        interior: [1, 1, 1],
        bin_size: neighbor.bin_size,
        layers: [0, 0, 0],
    };
    let mut d: usize = 0;
    while d < 3
        invariant
            is_arithmetic(*ar),
            d <= 3,
            cutoff == neighbor.cached_max_cutoff,
            min_bin == neighbor.bin_min_size.greater(required_bin(*ar, cutoff, comm_size)),
            ghost_cut == if cutoff.below(domain.ghost_cutoff) {
                domain.ghost_cutoff
            } else {
                cutoff
            },
            plan.interior[0] >= 1 && plan.interior[1] >= 1 && plan.interior[2] >= 1,
            forall|k: int|
                0 <= k < d ==> #[trigger] planned(*ar, *neighbor, *domain, comm_size, plan, k),
        decreases 3 - d,
    {
        let ghost before: GridPlan = plan;
        let f: i32 = over(ar, domain.sub_length[d], min_bin).floor_i32();
        let inner: i32 = if f < 1 {
            1
        } else {
            f
        };
        let size: Scalar = over(ar, domain.sub_length[d], Scalar::from_i32(inner));
        let reach: i64 = over(ar, ghost_cut, size).ceil_i32() as i64 + over(ar, cutoff, size).ceil_i32() as i64;
        plan.interior[d] = inner;
        plan.bin_size[d] = size;
        plan.layers[d] = reach;
        proof {
            assert(planned(*ar, *neighbor, *domain, comm_size, plan, d as int));
            assert forall|k: int| 0 <= k < d implies #[trigger] planned(
                *ar,
                *neighbor,
                *domain,
                comm_size,
                plan,
                k,
            ) by {
                assert(planned(*ar, *neighbor, *domain, comm_size, before, k));
            }
        }
        d = d + 1;
    }
    plan
}

/// Plans of the same grid agree.
proof fn lemma_plan_unique<F: Fn(Op, Scalar, Scalar, Scalar) -> Scalar>(
    ar: F,
    neighbor: Neighbor,
    domain: Domain,
    comm_size: i32,
    a: GridPlan,
    b: GridPlan,
)
    requires
        is_plan(ar, neighbor, domain, comm_size, a),
        is_plan(ar, neighbor, domain, comm_size, b),
    ensures
        a == b,
{
    assert forall|d: int| 0 <= d < 3 implies a.interior[d] == b.interior[d] && a.bin_size[d]
        == b.bin_size[d] && a.layers[d] == b.layers[d] by {
        assert(planned(ar, neighbor, domain, comm_size, a, d));
        assert(planned(ar, neighbor, domain, comm_size, b, d));
    }
    assert(a.interior =~= b.interior);
    assert(a.bin_size =~= b.bin_size);
    assert(a.layers =~= b.layers);
}

/// The grid that the cutoffs and the lengths ask for can be built.
pub open spec fn grid_fits<F: Fn(Op, Scalar, Scalar, Scalar) -> Scalar>(
    ar: F,
    neighbor: Neighbor,
    domain: Domain,
    comm_size: i32,
) -> bool {
    forall|plan: GridPlan| #[trigger]
        is_plan(ar, neighbor, domain, comm_size, plan) ==> plan.fits()
}

/// Whether the grid that the cutoffs and the lengths ask for can be built.
pub fn bin_grid_fits<F: Fn(Op, Scalar, Scalar, Scalar) -> Scalar>(
    neighbor: &Neighbor,
    domain: &Domain,
    comm_size: i32,
    ar: &F,
) -> (r: bool)
    requires
        is_arithmetic(*ar),
    ensures
        r == grid_fits(*ar, *neighbor, *domain, comm_size),
{
    let plan: GridPlan = plan_grid(neighbor, domain, comm_size, ar);
    let max: i64 = 0x7FFF_FFFF;
    let r: bool = if plan.layers[0] < 0 || plan.layers[0] > max || plan.layers[1] < 0 || plan.layers[1]
        > max || plan.layers[2] < 0 || plan.layers[2] > max {
        false
    } else {
        let a: i128 = plan.interior[0] as i128 + 2 * plan.layers[0] as i128;
        let b: i128 = plan.interior[1] as i128 + 2 * plan.layers[1] as i128;
        let c: i128 = plan.interior[2] as i128 + 2 * plan.layers[2] as i128;
        proof {
            assert(0 <= b * c <= 0x4_0000_0000 * 0x4_0000_0000) by (nonlinear_arith)
                requires
                    0 <= b <= 0x4_0000_0000,
                    0 <= c <= 0x4_0000_0000,
            ;
            assert(0 <= a * (b * c) <= 0x4_0000_0000 * 0x4_0000_0000 * 0x4_0000_0000)
                by (nonlinear_arith)
                requires
                    0 <= a <= 0x4_0000_0000,
                    0 <= b * c <= 0x4_0000_0000 * 0x4_0000_0000,
            ;
        }
        a * (b * c) <= 0x7FFF_FFFF
    };
    proof {
        assert(r == plan.fits());
        assert forall|other: GridPlan| #[trigger]
            is_plan(*ar, *neighbor, *domain, comm_size, other) implies other == plan by {
            lemma_plan_unique(*ar, *neighbor, *domain, comm_size, other, plan);
        }
    }
    r
}

/// `neighbor` has the grid of `plan`.
pub open spec fn has_grid<F: Fn(Op, Scalar, Scalar, Scalar) -> Scalar>(
    ar: F,
    neighbor: Neighbor,
    domain: Domain,
    plan: GridPlan,
) -> bool {
    let cutoff = neighbor.cached_max_cutoff;
    let layers = [plan.layers[0] as i32, plan.layers[1] as i32, plan.layers[2] as i32];
    &&& forall|d: int| 0 <= d < 3 ==> #[trigger] neighbor.bin_count[d] == plan.bins(d)
    &&& neighbor.bin_size == plan.bin_size
    &&& grid_ok(neighbor.bin_count, layers)
    &&& neighbor.grid_valid()
    &&& forall|d: int|
        0 <= d < 3 ==> #[trigger] neighbor.bin_origin[d] == difference(
            ar,
            domain.sub_domain_low[d],
            product(ar, plan.bin_size[d], int_word(plan.layers[d] as int)),
        )
    &&& neighbor.bin_stencil@ == stencil_of(
        within_cutoff(ar, plan.bin_size, product(ar, cutoff, cutoff)),
        neighbor.bin_count,
        layers,
    )
    &&& neighbor.bin_stencil_forward@ == positive(neighbor.bin_stencil@)
    &&& neighbor.bin_stencil_self == neighbor.bin_stencil@.contains(0)
    &&& crate::domain::is_difference(
        ar,
        neighbor.pbc_box,
        domain.boundaries_high,
        domain.boundaries_low,
    )
}

/// Builds the bin grid that the cutoffs and the lengths ask for.
pub fn compute_bin_grid<F: Fn(Op, Scalar, Scalar, Scalar) -> Scalar>(
    neighbor: &mut Neighbor,
    domain: &Domain,
    comm_size: i32,
    ar: &F,
)
    requires
        is_arithmetic(*ar),
        grid_fits(*ar, *old(neighbor), *domain, comm_size),
    ensures
        exists|plan: GridPlan| #[trigger]
            is_plan(*ar, *old(neighbor), *domain, comm_size, plan) && has_grid(
                *ar,
                *final(neighbor),
                *domain,
                plan,
            ),
        final(neighbor).grid_valid(),
        final(neighbor).same_settings(old(neighbor)),
        final(neighbor).same_list(old(neighbor)),
        final(neighbor).same_history(old(neighbor)),
        final(neighbor).sort_counter == old(neighbor).sort_counter,
{
    let plan: GridPlan = plan_grid(neighbor, domain, comm_size, ar);
    assert(is_plan(*ar, *neighbor, *domain, comm_size, plan));
    let layers: [i32; 3] = [
        plan.layers[0] as i32,
        plan.layers[1] as i32,
        plan.layers[2] as i32,
    ];
    let cutoff_sq: Scalar = times(ar, neighbor.cached_max_cutoff, neighbor.cached_max_cutoff);
    let stencil: Stencil = build_stencil(plan.interior, layers, plan.bin_size, cutoff_sq, ar);
    neighbor.bin_count = stencil.count;
    neighbor.bin_size = plan.bin_size;
    neighbor.bin_total_cells = stencil.total_cells;
    neighbor.bin_origin = [
        minus(
            ar,
            domain.sub_domain_low[0],
            times(ar, plan.bin_size[0], Scalar::from_i32(layers[0])),
        ),
        minus(
            ar,
            domain.sub_domain_low[1],
            times(ar, plan.bin_size[1], Scalar::from_i32(layers[1])),
        ),
        minus(
            ar,
            domain.sub_domain_low[2],
            times(ar, plan.bin_size[2], Scalar::from_i32(layers[2])),
        ),
    ];
    neighbor.bin_stencil = stencil.full;
    neighbor.bin_stencil_forward = stencil.forward;
    neighbor.bin_stencil_self = stencil.has_self;
    neighbor.pbc_box = crate::domain::subtract(ar, domain.boundaries_high, domain.boundaries_low);
    proof {
        assert(layers =~= [
            plan.layers[0] as i32,
            plan.layers[1] as i32,
            plan.layers[2] as i32,
        ]);
        assert(has_grid(*ar, *neighbor, *domain, plan));
    }
}

/// Rebuilds the bin grid after the box changed, once there is one.
pub fn recompute_bins<F: Fn(Op, Scalar, Scalar, Scalar) -> Scalar>(
    neighbor: &mut Neighbor,
    domain: &Domain,
    comm_size: i32,
    ar: &F,
)
    requires
        is_arithmetic(*ar),
        Scalar::zero().below(old(neighbor).cached_max_cutoff) || old(neighbor).cached_max_cutoff.nan()
            ==> grid_fits(*ar, *old(neighbor), *domain, comm_size),
    ensures
        Scalar::zero().at_least(old(neighbor).cached_max_cutoff) ==> *final(neighbor)
            == *old(neighbor),
        !Scalar::zero().at_least(old(neighbor).cached_max_cutoff) ==> {
            &&& exists|plan: GridPlan| #[trigger]
                is_plan(*ar, *old(neighbor), *domain, comm_size, plan) && has_grid(
                    *ar,
                    *final(neighbor),
                    *domain,
                    plan,
                )
            &&& final(neighbor).grid_valid()
        },
        final(neighbor).same_settings(old(neighbor)),
        final(neighbor).same_list(old(neighbor)),
        final(neighbor).same_history(old(neighbor)),
        final(neighbor).sort_counter == old(neighbor).sort_counter,
{
    if Scalar::zero().ge(neighbor.cached_max_cutoff) {
        return;
    }
    compute_bin_grid(neighbor, domain, comm_size, ar);
}

/// The local atoms in the order of their cells.
pub open spec fn sort_order<F: Fn(Op, Scalar, Scalar, Scalar) -> Scalar>(
    ar: F,
    neighbor: Neighbor,
    atoms: Atom,
) -> Seq<usize> {
    let order = order_upto(
        cells_of(ar, neighbor, atoms.pos@, atoms.nlocal as int),
        neighbor.bin_total_cells as int,
    );
    Seq::new(order.len(), |k: int| order[k] as usize)
}

/// Every element stands at its own place.
pub open spec fn is_identity(perm: Seq<usize>) -> bool {
    forall|k: int| 0 <= k < perm.len() ==> #[trigger] perm[k] == k
}

/// An index into atoms that were reordered by `perm`, after and before.
pub open spec fn follows(perm: Seq<usize>, new: int, old_index: int) -> bool {
    if 0 <= old_index < perm.len() {
        0 <= new < perm.len() && perm[new] == old_index
    } else {
        new == old_index
    }
}

proof fn lemma_sort_order<F: Fn(Op, Scalar, Scalar, Scalar) -> Scalar>(
    ar: F,
    neighbor: Neighbor,
    atoms: Atom,
)
    requires
        neighbor.grid_valid(),
        atoms.nlocal <= atoms.pos@.len(),
    ensures
        sort_order(ar, neighbor, atoms).len() == atoms.nlocal,
        sort_order(ar, neighbor, atoms).no_duplicates(),
        forall|k: int|
            0 <= k < atoms.nlocal ==> #[trigger] sort_order(ar, neighbor, atoms)[k] < atoms.nlocal,
        forall|i: usize|
            i < atoms.nlocal ==> #[trigger] sort_order(ar, neighbor, atoms).contains(i),
{
    let n: int = atoms.nlocal as int;
    let cells: Seq<u32> = cells_of(ar, neighbor, atoms.pos@, n);
    assert forall|i: int| 0 <= i < cells.len() implies #[trigger] cells[i] < neighbor.bin_total_cells by {
        lemma_cell_bound(ar, neighbor, atoms.pos@[i]);
    }
    order_is_stable_permutation(cells, neighbor.bin_total_cells as int);
    let order: Seq<u32> = order_upto(cells, neighbor.bin_total_cells as int);
    let perm: Seq<usize> = sort_order(ar, neighbor, atoms);
    assert forall|j: int, k: int| 0 <= j < perm.len() && 0 <= k < perm.len() && j != k implies perm[j]
        != perm[k] by {
        assert(order[j] != order[k]);
    }
    assert forall|i: usize| i < n implies #[trigger] perm.contains(i) by {
        assert(order.contains(i as u32));
        let k: int = choose|k: int| 0 <= k < order.len() && order[k] == i as u32;
        assert(perm[k] == i);
    }
}

/// The order depends on the grid alone.
proof fn lemma_same_order<F: Fn(Op, Scalar, Scalar, Scalar) -> Scalar>(
    ar: F,
    a: Neighbor,
    b: Neighbor,
    atoms: Atom,
)
    requires
        a.same_grid(&b),
    ensures
        sort_order(ar, a, atoms) == sort_order(ar, b, atoms),
{
    let n: int = atoms.nlocal as int;
    assert forall|i: int| 0 <= i < n implies cells_of(ar, a, atoms.pos@, n)[i] == cells_of(
        ar,
        b,
        atoms.pos@,
        n,
    )[i] by {}
    assert(cells_of(ar, a, atoms.pos@, n) =~= cells_of(ar, b, atoms.pos@, n));
}

/// Sorts the local atoms by cell, with all extension data. Saved positions and
/// the owners of ghosts follow. Returns whether nothing had to be done.
#[verifier::rlimit(60)]
pub fn sort_local_atoms<D: AtomData, F: Fn(Op, Scalar, Scalar, Scalar) -> Scalar>(
    atoms: &mut Atom,
    neighbor: &mut Neighbor,
    registry: &mut AtomDataRegistry<D>,
    ar: &F,
) -> (r: bool)
    requires
        is_arithmetic(*ar),
        old(neighbor).grid_valid(),
        old(atoms).wf(),
        old(registry).wf(),
        old(registry).parallel_to(old(atoms).records().len() as int),
        old(atoms).nlocal + old(atoms).nghost <= old(atoms).records().len(),
        old(atoms).nlocal <= i32::MAX,
    ensures
        final(atoms).wf(),
        final(registry).wf(),
        final(atoms).same_header(old(atoms)),
        final(registry).same_stores(old(registry)),
        final(registry).parallel_to(final(atoms).records().len() as int),
        final(atoms).records().len() == old(atoms).records().len(),
        *final(neighbor) == (Neighbor {
            last_build_pos: final(neighbor).last_build_pos,
            ..*old(neighbor)
        }),
        r == is_identity(sort_order(*ar, *old(neighbor), *old(atoms))),
        r ==> *final(atoms) == *old(atoms) && *final(registry) == *old(registry) && *final(neighbor)
            == *old(neighbor),
        !r ==> {
            let perm = sort_order(*ar, *old(neighbor), *old(atoms));
            &&& forall|i: int|
                0 <= i < old(atoms).nlocal ==> #[trigger] final(atoms).record(i) == old(atoms).record(
                    perm[i] as int,
                )
            &&& forall|g: int|
                old(atoms).nlocal <= g < old(atoms).nlocal + old(atoms).nghost ==> {
                    let new = #[trigger] final(atoms).record(g);
                    &&& new == Record { origin_index: new.origin_index, ..old(atoms).record(g) }
                    &&& follows(
                        perm,
                        new.origin_index as int,
                        old(atoms).record(g).origin_index as int,
                    )
                }
            &&& forall|i: int|
                old(atoms).nlocal + old(atoms).nghost <= i < old(atoms).records().len()
                    ==> #[trigger] final(atoms).record(i) == old(atoms).record(i)
            &&& forall|s: int|
                0 <= s < old(registry).stores@.len() ==> (
                #[trigger] final(registry).stores@[s]).data.rows() == permuted(
                    old(registry).stores@[s].data.rows(),
                    perm,
                )
            &&& final(neighbor).last_build_pos@ == if old(neighbor).last_build_pos@.len()
                >= old(atoms).nlocal {
                permuted(old(neighbor).last_build_pos@, perm)
            } else {
                old(neighbor).last_build_pos@
            }
        },
{
    let nlocal: usize = atoms.nlocal as usize;
    let ghost start: Atom = *atoms;
    let ghost grid: Neighbor = *neighbor;
    let ghost order: Seq<usize> = sort_order(*ar, *neighbor, *atoms);
    proof {
        lemma_sort_order(*ar, *neighbor, *atoms);
    }
    let cells: Vec<u32> = assign_cells(neighbor, &atoms.pos, nlocal, ar);
    let bins: Bins = bin_atoms(&cells, neighbor.bin_total_cells);
    proof {
        lemma_sorted_is_order(bins, cells@, neighbor.bin_total_cells as int);
    }
    let mut perm: Vec<usize> = Vec::with_capacity(nlocal);
    let mut already_sorted: bool = true;
    let mut i: usize = 0;
    while i < nlocal
        invariant
            i <= nlocal,
            nlocal == order.len(),
            bins.sorted@.len() == nlocal,
            forall|k: int| 0 <= k < nlocal ==> #[trigger] order[k] == bins.sorted@[k],
            perm@ == order.take(i as int),
            already_sorted == is_identity(order.take(i as int)),
        decreases nlocal - i,
    {
        let p: usize = bins.sorted[i] as usize;
        perm.push(p);
        if p != i {
            already_sorted = false;
        }
        proof {
            assert(order[i as int] == p);
            assert(perm@ =~= order.take(i + 1));
            assert(order.take(i + 1)[i as int] == p);
            assert forall|k: int| 0 <= k < i implies order.take(i + 1)[k] == order.take(i as int)[k] by {}
            if already_sorted {
                assert forall|k: int| 0 <= k < i + 1 implies #[trigger] order.take(i + 1)[k] == k by {
                    if k < i {
                        assert(order.take(i as int)[k] == k);
                    }
                }
            } else if is_identity(order.take(i + 1)) {
                assert forall|k: int| 0 <= k < i implies #[trigger] order.take(i as int)[k] == k by {
                    assert(order.take(i + 1)[k] == k);
                }
            }
        }
        i = i + 1;
    }
    assert(order.take(nlocal as int) =~= order);
    assert(perm@ == order);
    if already_sorted {
        return true;
    }
    atoms.apply_permutation(perm.as_slice(), nlocal);
    registry.apply_permutation_all(perm.as_slice(), nlocal);
    if neighbor.last_build_pos.len() >= nlocal {
        gather(&mut neighbor.last_build_pos, perm.as_slice(), nlocal);
    }
    let ghost moved: Atom = *atoms;
    let nghost: usize = atoms.nghost as usize;
    let mut inverse: Vec<u32> = vec![0u32; nlocal];
    i = 0;
    while i < nlocal
        invariant
            i <= nlocal <= i32::MAX,
            perm@ == order,
            order.len() == nlocal,
            order.no_duplicates(),
            forall|k: int| 0 <= k < nlocal ==> #[trigger] order[k] < nlocal,
            inverse@.len() == nlocal,
            forall|k: int| 0 <= k < i ==> inverse@[(#[trigger] order[k]) as int] == k,
        decreases nlocal - i,
    {
        let p: usize = perm[i];
        assert(order[i as int] == p);
        inverse[p] = i as u32;
        proof {
            assert forall|k: int| 0 <= k < i + 1 implies inverse@[(#[trigger] order[k]) as int] == k by {
                if k < i {
                    assert(order[k] != order[i as int]);
                }
            }
        }
        i = i + 1;
    }
    let total: usize = atoms.len();
    let end: usize = nlocal + nghost;
    let mut g: usize = nlocal;
    while g < end
        invariant
            nlocal <= g <= end <= total,
            end == nlocal + nghost,
            nlocal <= i32::MAX,
            order.len() == nlocal,
            forall|k: int| 0 <= k < nlocal ==> #[trigger] order[k] < nlocal,
            forall|o: usize| o < nlocal ==> #[trigger] order.contains(o),
            inverse@.len() == nlocal,
            forall|k: int| 0 <= k < nlocal ==> inverse@[(#[trigger] order[k]) as int] == k,
            total == moved.records().len(),
            moved.wf(),
            atoms.wf(),
            atoms.records().len() == total,
            atoms.same_header(&moved),
            atoms.tag@ == moved.tag@,
            atoms.atom_type@ == moved.atom_type@,
            atoms.is_ghost@ == moved.is_ghost@,
            atoms.pos@ == moved.pos@,
            atoms.vel@ == moved.vel@,
            atoms.force@ == moved.force@,
            atoms.cutoff_radius@ == moved.cutoff_radius@,
            atoms.mass@ == moved.mass@,
            atoms.inv_mass@ == moved.inv_mass@,
            atoms.image@ == moved.image@,
            forall|k: int|
                0 <= k < total && !(nlocal <= k < g) ==> #[trigger] atoms.origin_index@[k]
                    == moved.origin_index@[k],
            forall|k: int|
                nlocal <= k < g ==> follows(
                    order,
                    #[trigger] atoms.origin_index@[k] as int,
                    moved.origin_index@[k] as int,
                ),
        decreases end - g,
    {
        let old_origin: i32 = atoms.origin_index[g];
        if 0 <= old_origin && (old_origin as usize) < nlocal {
            proof {
                assert(order.contains(old_origin as usize));
                let k: int = choose|k: int| 0 <= k < nlocal && #[trigger] order[k] == old_origin;
                assert(inverse@[order[k] as int] == k);
            }
            let new_origin: i32 = inverse[old_origin as usize] as i32;
            atoms.origin_index.set(g, new_origin);
        }
        g = g + 1;
    }
    proof {
        assert forall|i: int| 0 <= i < nlocal implies #[trigger] atoms.record(i) == start.record(
            order[i] as int,
        ) by {
            assert(moved.records()[i] == start.records()[order[i] as int]);
            assert(atoms.record(i) == moved.record(i));
        }
        assert forall|g: int| nlocal <= g < end implies {
            let new = #[trigger] atoms.record(g);
            &&& new == Record { origin_index: new.origin_index, ..start.record(g) }
            &&& follows(order, new.origin_index as int, start.record(g).origin_index as int)
        } by {
            assert(moved.records()[g] == start.records()[g]);
            assert(follows(
                order,
                atoms.origin_index@[g] as int,
                moved.origin_index@[g] as int,
            ));
        }
        assert forall|i: int| end <= i < total implies #[trigger] atoms.record(i) == start.record(i) by {
            assert(moved.records()[i] == start.records()[i]);
        }
    }
    false
}

/// A ghost still points at its owner after the atoms were sorted.
pub proof fn sorted_ghosts_keep_owners(
    perm: Seq<usize>,
    before: Seq<Record>,
    after: Seq<Record>,
    g: int,
)
    requires
        perm.len() <= g < before.len(),
        after.len() == before.len(),
        0 <= before[g].origin_index < perm.len(),
        follows(perm, after[g].origin_index as int, before[g].origin_index as int),
        forall|i: int| 0 <= i < perm.len() ==> #[trigger] after[i] == before[perm[i] as int],
    ensures
        after[after[g].origin_index as int] == before[before[g].origin_index as int],
{
}

/// What is left to do after a sort: nothing, or to ask all processes whether
/// one of them reordered its atoms.
pub type SortReport = Option<bool>;

/// The sort counter after one more step, and whether the periodic sort is due.
pub open spec fn sort_due(neighbor: Neighbor) -> bool {
    neighbor.sort_every > 0 && neighbor.sort_counter + 1 >= neighbor.sort_every
}

/// Counts a step and sorts the local atoms where a sort is due or the list is
/// rebuilt anyway. Where the periodic sort is due, the result says whether
/// this process reordered atoms; all processes then have to agree.
pub fn sort_atoms_by_bin<D: AtomData, F: Fn(Op, Scalar, Scalar, Scalar) -> Scalar>(
    atoms: &mut Atom,
    neighbor: &mut Neighbor,
    comm_size: i32,
    registry: &mut AtomDataRegistry<D>,
    domain: &mut Domain,
    comm_state: &mut CommState,
    ar: &F,
) -> (r: SortReport)
    requires
        is_arithmetic(*ar),
        old(atoms).wf(),
        old(registry).wf(),
        old(registry).parallel_to(old(atoms).records().len() as int),
        old(atoms).nlocal + old(atoms).nghost <= old(atoms).records().len(),
        old(atoms).nlocal <= i32::MAX,
        old(neighbor).sort_counter < usize::MAX,
        old(neighbor).bin_total_cells > 0 ==> old(neighbor).grid_valid(),
        old(domain).bounds_changed && !Scalar::zero().at_least(old(neighbor).cached_max_cutoff)
            ==> grid_fits(*ar, *old(neighbor), *old(domain), comm_size),
    ensures
        final(atoms).wf(),
        final(registry).wf(),
        final(atoms).same_header(old(atoms)),
        final(registry).same_stores(old(registry)),
        final(registry).parallel_to(final(atoms).records().len() as int),
        final(atoms).records().len() == old(atoms).records().len(),
        final(neighbor).same_settings(old(neighbor)),
        final(neighbor).same_list(old(neighbor)),
        *final(domain) == (Domain { bounds_changed: false, ..*old(domain) }),
        *final(comm_state) == if old(domain).bounds_changed {
            CommState::FullRebuild
        } else {
            *old(comm_state)
        },
        !old(domain).bounds_changed || Scalar::zero().at_least(old(neighbor).cached_max_cutoff)
            ==> final(neighbor).same_grid(old(neighbor)),
        old(domain).bounds_changed && !Scalar::zero().at_least(old(neighbor).cached_max_cutoff)
            ==> exists|plan: GridPlan| #[trigger]
            is_plan(*ar, *old(neighbor), *old(domain), comm_size, plan) && has_grid(
                *ar,
                *final(neighbor),
                *old(domain),
                plan,
            ),
        final(neighbor).sort_counter == if sort_due(*old(neighbor)) {
            0
        } else {
            old(neighbor).sort_counter + 1
        },
        ({
            let grid = *final(neighbor);
            let active = old(atoms).nlocal > 0 && grid.bin_total_cells > 0;
            let before = Neighbor { last_build_pos: old(neighbor).last_build_pos, ..grid };
            let asked = stale(*ar, *old(atoms), before, *final(comm_state));
            let perm = sort_order(*ar, grid, *old(atoms));
            &&& r is Some <==> sort_due(*old(neighbor))
            &&& r matches Some(did) ==> did == (active && !is_identity(perm))
            &&& !active || !(sort_due(*old(neighbor)) || asked) || is_identity(perm)
                ==> *final(atoms) == *old(atoms) && *final(registry) == *old(registry)
                && final(neighbor).last_build_pos == old(neighbor).last_build_pos
            &&& active && (sort_due(*old(neighbor)) || asked) && !is_identity(perm) ==> {
                &&& forall|i: int|
                    0 <= i < old(atoms).nlocal ==> #[trigger] final(atoms).record(i) == old(
                        atoms).record(perm[i] as int)
                &&& forall|g: int|
                    old(atoms).nlocal <= g < old(atoms).nlocal + old(atoms).nghost ==> {
                        let new = #[trigger] final(atoms).record(g);
                        &&& new == Record { origin_index: new.origin_index, ..old(atoms).record(g) }
                        &&& follows(
                            perm,
                            new.origin_index as int,
                            old(atoms).record(g).origin_index as int,
                        )
                    }
                &&& forall|i: int|
                    old(atoms).nlocal + old(atoms).nghost <= i < old(atoms).records().len()
                        ==> #[trigger] final(atoms).record(i) == old(atoms).record(i)
                &&& forall|s: int|
                    0 <= s < old(registry).stores@.len() ==> (
                    #[trigger] final(registry).stores@[s]).data.rows() == permuted(
                        old(registry).stores@[s].data.rows(),
                        perm,
                    )
                &&& final(neighbor).last_build_pos@ == if old(neighbor).last_build_pos@.len()
                    >= old(atoms).nlocal {
                    permuted(old(neighbor).last_build_pos@, perm)
                } else {
                    old(neighbor).last_build_pos@
                }
            }
        }),
{
    if domain.bounds_changed {
        recompute_bins(neighbor, domain, comm_size, ar);
        domain.bounds_changed = false;
        *comm_state = CommState::FullRebuild;
    }
    neighbor.sort_counter = neighbor.sort_counter + 1;
    let periodic_sort: bool = neighbor.sort_every > 0 && neighbor.sort_counter >= neighbor.sort_every;
    if periodic_sort {
        neighbor.sort_counter = 0;
    }
    let nlocal: usize = atoms.nlocal as usize;
    if nlocal == 0 || neighbor.bin_total_cells == 0 || nlocal > atoms.pos.len() {
        return if periodic_sort {
            Some(false)
        } else {
            None
        };
    }
    let rebuild_needed: bool = needs_rebuild(atoms, neighbor, *comm_state, ar);
    if !periodic_sort && !rebuild_needed {
        return None;
    }
    let ghost grid: Neighbor = *neighbor;
    let already_sorted: bool = sort_local_atoms(atoms, neighbor, registry, ar);
    proof {
        lemma_same_order(*ar, grid, *neighbor, *old(atoms));
        assert(grid == Neighbor { last_build_pos: old(neighbor).last_build_pos, ..*neighbor });
    }
    if periodic_sort {
        Some(!already_sorted)
    } else {
        None
    }
}

/// Acts on the answer of all processes: a reordering anywhere makes every
/// process rebuild its ghosts.
pub fn finish_sort(neighbor: &mut Neighbor, comm_state: &mut CommState, any_sorted: bool)
    ensures
        any_sorted ==> *final(comm_state) == CommState::FullRebuild && final(
            neighbor).last_build_pos@.len() == 0,
        !any_sorted ==> *final(comm_state) == *old(comm_state) && *final(neighbor) == *old(neighbor),
        final(neighbor).same_settings(old(neighbor)),
        final(neighbor).same_grid(old(neighbor)),
        final(neighbor).same_list(old(neighbor)),
        final(neighbor).sort_counter == old(neighbor).sort_counter,
{
    if any_sorted {
        neighbor.last_build_pos.clear();
        *comm_state = CommState::FullRebuild;
    }
}

impl Neighbor {
    /// The stencil that the list is built with.
    pub open spec fn list_stencil(&self) -> Seq<i32> {
        if self.newton {
            self.bin_stencil_forward@
        } else {
            self.bin_stencil@
        }
    }

    /// Walks over the pairs of the list.
    pub fn pairs(&self, nlocal: usize) -> (r: PairIter<'_>)
        requires
            walkable(self.neighbor_offsets@, self.neighbor_indices@, nlocal as int),
        ensures
            r.wf(),
            r.remaining() == pairs_from(
                self.neighbor_offsets@,
                self.neighbor_indices@,
                0,
                nlocal as int,
            ),
    {
        PairIter::new(&self.neighbor_offsets, &self.neighbor_indices, nlocal)
    }
}

impl Default for Neighbor {
    fn default() -> (r: Self)
        ensures
            r.skin_fraction == Scalar::one(),
            r.neighbor_offsets@.len() == 0,
            r.neighbor_indices@.len() == 0,
            r.bin_min_size == Scalar::one(),
            r.bin_size[0] == Scalar::one() && r.bin_size[1] == Scalar::one() && r.bin_size[2]
                == Scalar::one(),
            r.bin_count[0] == 1 && r.bin_count[1] == 1 && r.bin_count[2] == 1,
            r.last_build_pos@.len() == 0,
            r.steps_since_build == 0,
            r.last_build_total == 0,
            !r.pbc_flags[0] && !r.pbc_flags[1] && !r.pbc_flags[2],
            r.bin_stencil@.len() == 0,
            r.bin_stencil_forward@.len() == 0,
            !r.bin_stencil_self,
            r.bin_total_cells == 0,
            r.every == 0,
            r.check,
            r.ghost_cutoff == Scalar::zero(),
            r.cached_min_skin == Scalar::greatest(),
            r.sort_every == 1000,
            r.sort_counter == 0,
            crate::domain::all_are(r.pbc_box, Scalar::zero()),
            crate::domain::all_are(r.bin_origin, Scalar::zero()),
            r.bin_atom_cell@.len() == 0,
            r.bin_count_arr@.len() == 0,
            r.bin_start@.len() == 0,
            r.bin_sorted_atoms@.len() == 0,
            r.bin_atom_sorted_idx@.len() == 0,
            r.bin_sorted_pos@.len() == 0,
            r.cached_uniform_cutoff_sq is None,
            r.cached_max_cutoff == Scalar::zero(),
            r.newton,
    {
        Neighbor::new()
    }
}

/// Builds the neighbour list of the local atoms: every atom is put into its
/// cell, and each local atom is compared with the atoms of the cells that the
/// stencil reaches.
#[verifier::rlimit(40)]
pub fn bin_neighbor_list<F: Fn(Op, Scalar, Scalar, Scalar) -> Scalar>(
    atoms: &Atom,
    neighbor: &mut Neighbor,
    comm_state: &mut CommState,
    ar: &F,
)
    requires
        is_arithmetic(*ar),
        atoms.wf(),
        atoms.nlocal <= atoms.records().len() <= u32::MAX,
        old(neighbor).grid_valid(),
        stencil_fits(
            cells_of(*ar, *old(neighbor), atoms.pos@, atoms.records().len() as int),
            old(neighbor).list_stencil(),
            old(neighbor).newton,
            atoms.nlocal as int,
            old(neighbor).bin_total_cells as int,
        ),
    ensures
        *final(comm_state) == CommState::CommunicateOnly,
        final(neighbor).same_settings(old(neighbor)),
        final(neighbor).same_grid(old(neighbor)),
        final(neighbor).sort_counter == old(neighbor).sort_counter,
        final(neighbor).last_build_pos@ == atoms.pos@.take(atoms.nlocal as int),
        final(neighbor).last_build_total == atoms.records().len(),
        final(neighbor).steps_since_build == 0,
        final(neighbor).cached_min_skin == least_radius(atoms.cutoff_radius@, atoms.nlocal as int),
        final(neighbor).cached_uniform_cutoff_sq == uniform_cutoff(
            *ar,
            atoms.cutoff_radius@,
            atoms.nlocal as int,
            old(neighbor).skin_fraction,
        ),
        ({
            let n = atoms.records().len() as int;
            let cells = cells_of(*ar, *old(neighbor), atoms.pos@, n);
            let near = within_reach(
                *ar,
                atoms.pos@,
                atoms.cutoff_radius@,
                final(neighbor).cached_uniform_cutoff_sq,
                product(*ar, old(neighbor).skin_fraction, old(neighbor).skin_fraction),
            );
            let stencil = old(neighbor).list_stencil();
            let has_self = old(neighbor).bin_stencil_self;
            let newton = old(neighbor).newton;
            &&& final(neighbor).cached_uniform_cutoff_sq is None ==> forall|i: int, j: int|
                exact_apart(*ar, atoms.pos@[i], atoms.pos@[j]) && #[trigger] exact_reach(
                    *ar,
                    atoms.cutoff_radius@[i],
                    atoms.cutoff_radius@[j],
                    old(neighbor).skin_fraction,
                ) ==> {
                    let reach = (num(atoms.cutoff_radius@[i]) + num(atoms.cutoff_radius@[j])) * num(
                        old(neighbor).skin_fraction,
                    );
                    near(i, j) <==> apart(point_of(atoms.pos@[i]), point_of(atoms.pos@[j])) < reach
                        * reach
                }
            &&& final(neighbor).bin_atom_cell@ == cells
            &&& final(neighbor).bin_sorted_atoms@ == order_upto(
                cells,
                old(neighbor).bin_total_cells as int,
            )
            &&& final(neighbor).bin_start@.len() == old(neighbor).bin_total_cells + 1
            &&& forall|c: int|
                0 <= c <= old(neighbor).bin_total_cells ==> #[trigger] final(neighbor).bin_start@[c]
                    == start_of(cells, c)
            &&& final(neighbor).bin_count_arr@.len() == old(neighbor).bin_total_cells
            &&& forall|c: int|
                0 <= c < old(neighbor).bin_total_cells ==> #[trigger] final(
                    neighbor).bin_count_arr@[c] == start_of(cells, c + 1)
            &&& final(neighbor).bin_atom_sorted_idx@.len() == n
            &&& forall|i: int|
                0 <= i < n ==> final(neighbor).bin_sorted_atoms@[(#[trigger] final(
                    neighbor).bin_atom_sorted_idx@[i]) as int] == i
            &&& final(neighbor).bin_sorted_pos@.len() == n
            &&& forall|m: int|
                0 <= m < n ==> #[trigger] final(neighbor).bin_sorted_pos@[m] == atoms.pos@[final(
                    neighbor).bin_sorted_atoms@[m] as int]
            &&& final(neighbor).neighbor_indices@ == rows(
                cells,
                stencil,
                has_self,
                newton,
                near,
                atoms.nlocal as int,
            )
            &&& final(neighbor).neighbor_offsets@.len() == atoms.nlocal + 1
            &&& forall|i: int|
                0 <= i <= atoms.nlocal ==> #[trigger] final(neighbor).neighbor_offsets@[i] == low32(
                    rows(cells, stencil, has_self, newton, near, i).len() as int,
                )
        }),
{
    let nlocal: usize = atoms.nlocal as usize;
    let total: usize = atoms.len();
    *comm_state = CommState::CommunicateOnly;
    save_build_positions(atoms, neighbor, ar);
    let cells: Vec<u32> = assign_cells(neighbor, &atoms.pos, total, ar);
    proof {
        assert(cells@ =~= cells_of(*ar, *old(neighbor), atoms.pos@, total as int));
    }
    let bins: Bins = bin_atoms(&cells, neighbor.bin_total_cells);
    let ghost order: Seq<u32> = bins.sorted@;
    proof {
        lemma_sorted_is_order(bins, cells@, neighbor.bin_total_cells as int);
        order_is_stable_permutation(cells@, neighbor.bin_total_cells as int);
        assert forall|i: int| 0 <= i < total implies order[(#[trigger] bins.slot@[i]) as int] == i by {
            lemma_slot_holds_atom(bins, cells@, neighbor.bin_total_cells as int, i);
        }
    }
    let mut sorted_pos: Vec<Vec3> = Vec::with_capacity(total);
    let mut m: usize = 0;
    while m < total
        invariant
            m <= total,
            total == atoms.pos@.len(),
            bins.sorted@.len() == total,
            forall|k: int| 0 <= k < total ==> #[trigger] bins.sorted@[k] < total,
            sorted_pos@.len() == m,
            forall|k: int|
                0 <= k < m ==> #[trigger] sorted_pos@[k] == atoms.pos@[bins.sorted@[k] as int],
        decreases total - m,
    {
        sorted_pos.push(atoms.pos[bins.sorted[m] as usize]);
        m = m + 1;
    }
    let skin_sq: Scalar = times(ar, neighbor.skin_fraction, neighbor.skin_fraction);
    let stencil: &Vec<i32> = if neighbor.newton {
        &neighbor.bin_stencil_forward
    } else {
        &neighbor.bin_stencil
    };
    let list: Csr = list_neighbors(
        &cells,
        &bins,
        neighbor.bin_total_cells,
        nlocal,
        stencil,
        neighbor.bin_stencil_self,
        neighbor.newton,
        &atoms.pos,
        &atoms.cutoff_radius,
        neighbor.cached_uniform_cutoff_sq,
        skin_sq,
        ar,
    );
    neighbor.neighbor_offsets = list.offsets;
    neighbor.neighbor_indices = list.indices;
    neighbor.bin_atom_cell = cells;
    neighbor.bin_count_arr = bins.cursor;
    neighbor.bin_start = bins.start;
    neighbor.bin_sorted_atoms = bins.sorted;
    neighbor.bin_atom_sorted_idx = bins.slot;
    neighbor.bin_sorted_pos = sorted_pos;
    proof {
        let skin: Scalar = neighbor.skin_fraction;
        assert forall|i: int, j: int|
            exact_apart(*ar, atoms.pos@[i], atoms.pos@[j]) && #[trigger] exact_reach(
                *ar,
                atoms.cutoff_radius@[i],
                atoms.cutoff_radius@[j],
                skin,
            ) implies {
            let reach = (num(atoms.cutoff_radius@[i]) + num(atoms.cutoff_radius@[j])) * num(skin);
            within_reach(
                *ar,
                atoms.pos@,
                atoms.cutoff_radius@,
                None,
                product(*ar, skin, skin),
            )(i, j) <==> apart(point_of(atoms.pos@[i]), point_of(atoms.pos@[j])) < reach * reach
        } by {
            close_pairs_are_within_their_reach(
                *ar,
                atoms.pos@,
                atoms.cutoff_radius@,
                skin,
                i,
                j,
            );
        }
    }
}

/// An atom's slot holds the atom.
proof fn lemma_slot_holds_atom(bins: Bins, cells: Seq<u32>, total: int, i: int)
    requires
        bins.sorts(cells, total),
        cells.len() <= u32::MAX,
        0 <= i < cells.len(),
        forall|k: int| 0 <= k < cells.len() ==> #[trigger] cells[k] < total,
    ensures
        bins.sorted@[bins.slot@[i] as int] == i,
{
    let c: int = cells[i] as int;
    let n: int = cells.len() as int;
    let k: int = crate::bins::members(cells, c, 0, i).len() as int;
    crate::bins::lemma_members_split(cells, c, 0, i + 1, n);
    assert(crate::bins::members(cells, c, 0, i + 1) == crate::bins::members(cells, c, 0, i).push(
        i as u32,
    ));
    assert(crate::bins::members(cells, c, 0, n)[k] == i);
    assert(bins.sorted@[start_of(cells, c) + k] == crate::bins::members(cells, c, 0, n)[k]);
}

/// What the first setup of the list reports.
pub struct NeighborSetup {
    pub pair_cutoff: Scalar,
    pub ghost_cutoff: Scalar,
    pub buffer: Scalar,
    pub small_subdomain: bool,
}

/// The greatest distance at which two atoms are neighbours.
pub open spec fn pair_cutoff<F: Fn(Op, Scalar, Scalar, Scalar) -> Scalar>(
    ar: F,
    neighbor: Neighbor,
    max_skin: Scalar,
) -> Scalar {
    if Scalar::zero().below(max_skin) {
        product(ar, product(ar, Scalar::two(), max_skin), neighbor.skin_fraction)
    } else {
        neighbor.bin_min_size
    }
}

/// The distance that two atoms together may move between rebuilds.
pub open spec fn drift_buffer<F: Fn(Op, Scalar, Scalar, Scalar) -> Scalar>(
    ar: F,
    neighbor: Neighbor,
    min_skin: Scalar,
) -> Scalar {
    let one_atom = if min_skin.below(product(ar, Scalar::greatest(), Scalar::half())) {
        product(ar, difference(ar, neighbor.skin_fraction, Scalar::one()), min_skin)
    } else {
        Scalar::zero()
    };
    product(ar, Scalar::two(), one_atom)
}

/// The settings after the cutoffs are known.
pub open spec fn with_cutoffs<F: Fn(Op, Scalar, Scalar, Scalar) -> Scalar>(
    ar: F,
    neighbor: Neighbor,
    domain: Domain,
    comm_size: i32,
    max_skin: Scalar,
    min_skin: Scalar,
) -> Neighbor {
    let cutoff = pair_cutoff(ar, neighbor, max_skin);
    let needed = required_bin(ar, cutoff, comm_size);
    Neighbor {
        cached_max_cutoff: cutoff,
        ghost_cutoff: sum(ar, cutoff, drift_buffer(ar, neighbor, min_skin)).greater(
            domain.ghost_cutoff,
        ),
        bin_min_size: if neighbor.bin_min_size.below(needed) {
            needed
        } else {
            neighbor.bin_min_size
        },
        ..neighbor
    }
}

/// A length is less than one bin exactly if it is shorter than a bin.
proof fn lemma_part_of_a_bin<F: Fn(Op, Scalar, Scalar, Scalar) -> Scalar>(
    ar: F,
    length: Scalar,
    bin: Scalar,
)
    requires
        num(bin) > 0real,
        exact_quotient(ar, length, bin),
    ensures
        quotient(ar, length, bin).below(Scalar::one()) <==> num(length) < num(bin),
{
    crate::exact::lemma_constants();
    crate::exact::lemma_order(quotient(ar, length, bin), Scalar::one());
    let (a, b): (real, real) = (num(length), num(bin));
    assert(a / b < 1real <==> a < b) by (nonlinear_arith)
        requires
            b > 0real,
    ;
}

/// Derives the cutoffs from the greatest and the least radius of all
/// processes.
pub fn set_cutoffs<F: Fn(Op, Scalar, Scalar, Scalar) -> Scalar>(
    neighbor: &mut Neighbor,
    domain: &mut Domain,
    comm_size: i32,
    max_skin: Scalar,
    min_skin: Scalar,
    ar: &F,
) -> (r: NeighborSetup)
    requires
        is_arithmetic(*ar),
    ensures
        *final(neighbor) == with_cutoffs(
            *ar,
            *old(neighbor),
            *old(domain),
            comm_size,
            max_skin,
            min_skin,
        ),
        *final(domain) == (Domain { ghost_cutoff: final(neighbor).ghost_cutoff, ..*old(domain) }),
        r.pair_cutoff == final(neighbor).cached_max_cutoff,
        r.ghost_cutoff == final(neighbor).ghost_cutoff,
        r.buffer == drift_buffer(*ar, *old(neighbor), min_skin),
        r.small_subdomain == exists|d: int|
            0 <= d < 3 && (#[trigger] quotient(
                *ar,
                old(domain).sub_length[d],
                final(neighbor).bin_min_size,
            )).below(Scalar::one()),
        num(final(neighbor).bin_min_size) > 0real && (forall|d: int|
            0 <= d < 3 ==> exact_quotient(
                *ar,
                #[trigger] old(domain).sub_length[d],
                final(neighbor).bin_min_size,
            )) ==> (r.small_subdomain <==> exists|d: int|
            0 <= d < 3 && num(#[trigger] old(domain).sub_length[d]) < num(
                final(neighbor).bin_min_size,
            )),
{
    let max_cutoff: Scalar = if Scalar::zero().lt(max_skin) {
        times(ar, times(ar, Scalar::two(), max_skin), neighbor.skin_fraction)
    } else {
        neighbor.bin_min_size
    };
    let one_atom: Scalar = if min_skin.lt(times(ar, Scalar::greatest(), Scalar::half())) {
        times(ar, minus(ar, neighbor.skin_fraction, Scalar::one()), min_skin)
    } else {
        Scalar::zero()
    };
    let buffer: Scalar = times(ar, Scalar::two(), one_atom);
    let ghost_cut: Scalar = plus(ar, max_cutoff, buffer).max(domain.ghost_cutoff);
    neighbor.ghost_cutoff = ghost_cut;
    neighbor.cached_max_cutoff = max_cutoff;
    domain.ghost_cutoff = ghost_cut;
    let needed: Scalar = if comm_size > 1 {
        times(ar, max_cutoff, Scalar::half())
    } else {
        max_cutoff
    };
    if neighbor.bin_min_size.lt(needed) {
        neighbor.bin_min_size = needed;
    }
    let min_bin: Scalar = neighbor.bin_min_size;
    let a: Scalar = over(ar, domain.sub_length[0], min_bin);
    let b: Scalar = over(ar, domain.sub_length[1], min_bin);
    let c: Scalar = over(ar, domain.sub_length[2], min_bin);
    let one: Scalar = Scalar::one();
    let small_subdomain: bool = a.lt(one) || b.lt(one) || c.lt(one);
    proof {
        if num(min_bin) > 0real {
            if exact_quotient(*ar, domain.sub_length[0], min_bin) {
                lemma_part_of_a_bin(*ar, domain.sub_length[0], min_bin);
            }
            if exact_quotient(*ar, domain.sub_length[1], min_bin) {
                lemma_part_of_a_bin(*ar, domain.sub_length[1], min_bin);
            }
            if exact_quotient(*ar, domain.sub_length[2], min_bin) {
                lemma_part_of_a_bin(*ar, domain.sub_length[2], min_bin);
            }
        }
        assert(domain.sub_length[0] == old(domain).sub_length[0]);
        assert(domain.sub_length[1] == old(domain).sub_length[1]);
        assert(domain.sub_length[2] == old(domain).sub_length[2]);
    }
    NeighborSetup { pair_cutoff: max_cutoff, ghost_cutoff: ghost_cut, buffer, small_subdomain }
}

/// Sets the list up for the greatest and the least radius of all processes:
/// cutoffs, bin grid and periodic axes.
pub fn neighbor_setup<F: Fn(Op, Scalar, Scalar, Scalar) -> Scalar>(
    neighbor: &mut Neighbor,
    domain: &mut Domain,
    comm_size: i32,
    max_skin: Scalar,
    min_skin: Scalar,
    ar: &F,
) -> (r: NeighborSetup)
    requires
        is_arithmetic(*ar),
        setup_fits(*ar, *old(neighbor), *old(domain), comm_size, max_skin, min_skin),
    ensures
        ({
            let cut = with_cutoffs(
                *ar,
                *old(neighbor),
                *old(domain),
                comm_size,
                max_skin,
                min_skin,
            );
            &&& r.pair_cutoff == cut.cached_max_cutoff
            &&& r.ghost_cutoff == cut.ghost_cutoff
            &&& r.buffer == drift_buffer(*ar, *old(neighbor), min_skin)
            &&& r.small_subdomain == exists|d: int|
                0 <= d < 3 && (#[trigger] quotient(
                    *ar,
                    old(domain).sub_length[d],
                    cut.bin_min_size,
                )).below(Scalar::one())
            &&& *final(domain) == (Domain { ghost_cutoff: cut.ghost_cutoff, ..*old(domain) })
            &&& final(neighbor).same_settings(
                &(Neighbor { pbc_flags: final(neighbor).pbc_flags, ..cut }),
            )
            &&& final(neighbor).same_list(old(neighbor))
            &&& final(neighbor).same_history(old(neighbor))
            &&& final(neighbor).sort_counter == old(neighbor).sort_counter
            &&& exists|plan: GridPlan| #[trigger]
                is_plan(*ar, cut, *final(domain), comm_size, plan) && has_grid(
                    *ar,
                    *final(neighbor),
                    *final(domain),
                    plan,
                )
        }),
        final(neighbor).grid_valid(),
        forall|d: int|
            0 <= d < 3 ==> #[trigger] final(neighbor).pbc_flags[d] == (old(domain).boundary_type[d]
                == BoundaryType::Periodic),
{
    let report: NeighborSetup = set_cutoffs(neighbor, domain, comm_size, max_skin, min_skin, ar);
    finish_setup(neighbor, domain, comm_size, ar);
    report
}

/// Sets the list up if the grid that the cutoffs ask for can be built. Else only
/// the cutoffs are set.
pub fn try_neighbor_setup<F: Fn(Op, Scalar, Scalar, Scalar) -> Scalar>(
    neighbor: &mut Neighbor,
    domain: &mut Domain,
    comm_size: i32,
    max_skin: Scalar,
    min_skin: Scalar,
    ar: &F,
) -> (r: (NeighborSetup, bool))
    requires
        is_arithmetic(*ar),
    ensures
        r.1 == setup_fits(*ar, *old(neighbor), *old(domain), comm_size, max_skin, min_skin),
        ({
            let cut = with_cutoffs(
                *ar,
                *old(neighbor),
                *old(domain),
                comm_size,
                max_skin,
                min_skin,
            );
            &&& r.0.pair_cutoff == cut.cached_max_cutoff
            &&& r.0.ghost_cutoff == cut.ghost_cutoff
            &&& r.0.buffer == drift_buffer(*ar, *old(neighbor), min_skin)
            &&& r.0.small_subdomain == exists|d: int|
                0 <= d < 3 && (#[trigger] quotient(
                    *ar,
                    old(domain).sub_length[d],
                    cut.bin_min_size,
                )).below(Scalar::one())
            &&& *final(domain) == (Domain { ghost_cutoff: cut.ghost_cutoff, ..*old(domain) })
            &&& !r.1 ==> *final(neighbor) == cut
            &&& r.1 ==> {
                &&& final(neighbor).same_settings(
                    &(Neighbor { pbc_flags: final(neighbor).pbc_flags, ..cut }),
                )
                &&& final(neighbor).same_list(old(neighbor))
                &&& final(neighbor).same_history(old(neighbor))
                &&& final(neighbor).sort_counter == old(neighbor).sort_counter
                &&& final(neighbor).grid_valid()
                &&& forall|d: int|
                    0 <= d < 3 ==> #[trigger] final(neighbor).pbc_flags[d] == (
                    old(domain).boundary_type[d] == BoundaryType::Periodic)
                &&& exists|plan: GridPlan| #[trigger]
                    is_plan(*ar, cut, *final(domain), comm_size, plan) && has_grid(
                        *ar,
                        *final(neighbor),
                        *final(domain),
                        plan,
                    )
            }
        }),
{
    let report: NeighborSetup = set_cutoffs(neighbor, domain, comm_size, max_skin, min_skin, ar);
    if !bin_grid_fits(neighbor, domain, comm_size, ar) {
        return (report, false);
    }
    finish_setup(neighbor, domain, comm_size, ar);
    (report, true)
}

/// Builds the grid and takes the periodic axes over.
fn finish_setup<F: Fn(Op, Scalar, Scalar, Scalar) -> Scalar>(
    neighbor: &mut Neighbor,
    domain: &Domain,
    comm_size: i32,
    ar: &F,
)
    requires
        is_arithmetic(*ar),
        grid_fits(*ar, *old(neighbor), *domain, comm_size),
    ensures
        final(neighbor).same_settings(
            &(Neighbor { pbc_flags: final(neighbor).pbc_flags, ..*old(neighbor) }),
        ),
        final(neighbor).same_list(old(neighbor)),
        final(neighbor).same_history(old(neighbor)),
        final(neighbor).sort_counter == old(neighbor).sort_counter,
        final(neighbor).grid_valid(),
        forall|d: int|
            0 <= d < 3 ==> #[trigger] final(neighbor).pbc_flags[d] == (domain.boundary_type[d]
                == BoundaryType::Periodic),
        exists|plan: GridPlan| #[trigger]
            is_plan(*ar, *old(neighbor), *domain, comm_size, plan) && has_grid(
                *ar,
                *final(neighbor),
                *domain,
                plan,
            ),
{
    let ghost cut: Neighbor = *neighbor;
    compute_bin_grid(neighbor, domain, comm_size, ar);
    let ghost built: Neighbor = *neighbor;
    proof {
        let plan: GridPlan = choose|plan: GridPlan| #[trigger]
            is_plan(*ar, cut, *domain, comm_size, plan) && has_grid(*ar, built, *domain, plan);
        assert(is_plan(*ar, cut, *domain, comm_size, plan));
    }
    neighbor.pbc_flags = domain.periodic_flags();
    proof {
        let plan: GridPlan = choose|plan: GridPlan| #[trigger]
            is_plan(*ar, cut, *domain, comm_size, plan) && has_grid(*ar, built, *domain, plan);
        assert(has_grid(*ar, *neighbor, *domain, plan));
    }
}

/// The grid that the cutoffs ask for can be built.
pub open spec fn setup_fits<F: Fn(Op, Scalar, Scalar, Scalar) -> Scalar>(
    ar: F,
    neighbor: Neighbor,
    domain: Domain,
    comm_size: i32,
    max_skin: Scalar,
    min_skin: Scalar,
) -> bool {
    let cut = with_cutoffs(ar, neighbor, domain, comm_size, max_skin, min_skin);
    grid_fits(ar, cut, Domain { ghost_cutoff: cut.ghost_cutoff, ..domain }, comm_size)
}

} // verus!

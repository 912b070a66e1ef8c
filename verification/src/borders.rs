//! Rebuilding the ghosts: one swap after the other, axis by axis.

use crate::atom::{border_words, Atom, Record};
use crate::atom_data::{packed_rows, AtomData, AtomDataRegistry, Entry};
use crate::comm::{CommTopology, SwapData};
use crate::domain::Domain;
use crate::exchange::{transfer, transfer_of, Transfer};
use crate::ghosts::{
    along, atom_start, border_parts, offset_along, pack_border_atoms, received_atoms, skin_atoms, unpack_ghost_atoms,
};
use crate::scalar::{
    clamp_int, is_arithmetic, over, product, quotient, sum, times, Op, Scalar, Vec3, FRACTION,
};
use crate::transport::joined;
use vstd::prelude::*;

verus! {

/// Drops the old ghosts; from here on every atom is a local one.
pub fn begin_borders<D: AtomData>(atoms: &mut Atom, registry: &mut AtomDataRegistry<D>)
    requires
        old(atoms).wf(),
        old(registry).wf(),
        old(atoms).nlocal <= old(atoms).records().len() <= u32::MAX,
        old(registry).parallel_to(old(atoms).records().len() as int),
    ensures
        final(atoms).wf(),
        final(registry).wf(),
        final(registry).same_stores(old(registry)),
        final(atoms).records() == if old(atoms).nghost > 0 {
            old(atoms).records().take(old(atoms).nlocal as int)
        } else {
            old(atoms).records()
        },
        final(atoms).nlocal == final(atoms).records().len(),
        final(atoms).nghost == 0,
        final(atoms).natoms == old(atoms).natoms,
        final(atoms).ntypes == old(atoms).ntypes,
        final(atoms).dt == old(atoms).dt,
        final(registry).parallel_to(final(atoms).records().len() as int),
        forall|k: int|
            0 <= k < old(registry).stores@.len() ==> (
            #[trigger] final(registry).stores@[k]).data.rows() == if old(atoms).nghost > 0 {
                old(registry).stores@[k].data.rows().take(old(atoms).nlocal as int)
            } else {
                old(registry).stores@[k].data.rows()
            },
{
    if atoms.nghost > 0 {
        atoms.truncate_to_nlocal();
        registry.truncate_all(atoms.nlocal as usize);
    }
    let ghost mid: Seq<Record> = atoms.records();
    atoms.nlocal = atoms.len() as u32;
    atoms.nghost = 0;
    assert(atoms.records() =~= mid);
}

/// The number of processes that ghosts have to travel along an axis: enough
/// to cover the ghost cutoff, at least one.
pub open spec fn need_of<F: Fn(Op, Scalar, Scalar, Scalar) -> Scalar>(
    ar: F,
    decomp: i32,
    ghost_cutoff: Scalar,
    sub_length: Scalar,
) -> int {
    if decomp == 1 {
        1
    } else {
        let c = clamp_int(
            quotient(ar, ghost_cutoff, sub_length).ceiling(),
            i32::MIN as int,
            i32::MAX as int,
        );
        if c < 1 {
            1
        } else {
            c
        }
    }
}

/// Computes the number of hops along each axis, once.
pub fn compute_maxneed<F: Fn(Op, Scalar, Scalar, Scalar) -> Scalar>(
    maxneed: [i32; 3],
    decomp: [i32; 3],
    sub_length: Vec3,
    ghost_cutoff: Scalar,
    ar: &F,
) -> (r: [i32; 3])
    requires
        is_arithmetic(*ar),
    ensures
        maxneed[0] == 0 && maxneed[1] == 0 && maxneed[2] == 0 ==> forall|d: int|
            0 <= d < 3 ==> #[trigger] r[d] == need_of(*ar, decomp[d], ghost_cutoff, sub_length[d]),
        !(maxneed[0] == 0 && maxneed[1] == 0 && maxneed[2] == 0) ==> r == maxneed,
{
    if !(maxneed[0] == 0 && maxneed[1] == 0 && maxneed[2] == 0) {
        return maxneed;
    }
    let mut r: [i32; 3] = [0, 0, 0];
    let mut d: usize = 0;
    while d < 3
        invariant
            is_arithmetic(*ar),
            d <= 3,
            forall|k: int|
                0 <= k < d ==> #[trigger] r[k] == need_of(
                    *ar,
                    decomp[k],
                    ghost_cutoff,
                    sub_length[k],
                ),
        decreases 3 - d,
    {
        if decomp[d] == 1 {
            r[d] = 1;
        } else {
            let c: i32 = over(ar, ghost_cutoff, sub_length[d]).ceil_i32();
            r[d] = if c < 1 {
                1
            } else {
                c
            };
        }
        d = d + 1;
    }
    r
}

/// Where a rebuild stands: the axis, the hop, the direction, the number of
/// swaps done, and up to where atoms are looked at in this hop.
pub struct BorderPass {
    pub dim: usize,
    pub need: i32,
    pub swap: usize,
    pub swap_idx: usize,
    pub scan_end: usize,
}

/// The hops along axis `d`.
pub open spec fn hops(maxneed: [i32; 3], d: int) -> int {
    if maxneed[d] > 0 {
        maxneed[d] as int
    } else {
        0
    }
}

/// The swaps along the axes below `d`.
pub open spec fn swaps_before(maxneed: [i32; 3], d: int) -> int
    decreases d,
{
    if d <= 0 {
        0
    } else {
        swaps_before(maxneed, d - 1) + 2 * hops(maxneed, d - 1)
    }
}

/// The axis of swap `k`.
pub open spec fn axis_of(maxneed: [i32; 3], k: int) -> int {
    if k < swaps_before(maxneed, 1) {
        0
    } else if k < swaps_before(maxneed, 2) {
        1
    } else {
        2
    }
}

/// The number of a swap tells its axis and its direction: the directions take
/// turns, the lower one first.
pub proof fn swap_number_tells_axis(maxneed: [i32; 3], pass: BorderPass)
    requires
        pass.wf(maxneed),
        pass.dim < 3,
    ensures
        pass.dim == axis_of(maxneed, pass.swap_idx as int),
        pass.swap == pass.swap_idx % 2,
{
    assert(swaps_before(maxneed, 0) == 0);
    assert(swaps_before(maxneed, 1) == 2 * hops(maxneed, 0));
    assert(swaps_before(maxneed, 2) == swaps_before(maxneed, 1) + 2 * hops(maxneed, 1));
    assert(swaps_before(maxneed, 3) == swaps_before(maxneed, 2) + 2 * hops(maxneed, 2));
}

impl BorderPass {
    /// The swaps are numbered in the order of axis, hop and direction.
    pub open spec fn wf(&self, maxneed: [i32; 3]) -> bool {
        &&& self.dim <= 3
        &&& self.dim < 3 ==> {
            &&& 0 <= self.need < maxneed[self.dim as int]
            &&& self.swap < 2
            &&& self.swap_idx == swaps_before(maxneed, self.dim as int) + 2 * self.need + self.swap
        }
        &&& self.dim == 3 ==> self.swap_idx == swaps_before(maxneed, 3)
    }

    /// The first axis from `from` on with a hop to make.
    fn first_axis(maxneed: [i32; 3], from: usize) -> (r: usize)
        requires
            from <= 3,
        ensures
            from <= r <= 3,
            r < 3 ==> maxneed[r as int] > 0,
            swaps_before(maxneed, r as int) == swaps_before(maxneed, from as int),
    {
        let mut d: usize = from;
        while d < 3 && maxneed[d] <= 0
            invariant
                from <= d <= 3,
                swaps_before(maxneed, d as int) == swaps_before(maxneed, from as int),
            decreases 3 - d,
        {
            d = d + 1;
        }
        d
    }

    /// Before the first swap.
    pub fn begin(maxneed: [i32; 3], nlocal: u32) -> (r: BorderPass)
        ensures
            r.wf(maxneed),
            r.swap_idx == 0,
            r.scan_end == nlocal,
    {
        let dim: usize = BorderPass::first_axis(maxneed, 0);
        BorderPass { dim, need: 0, swap: 0, swap_idx: 0, scan_end: nlocal as usize }
    }

    /// Whether all swaps are done.
    pub fn is_done(&self) -> (r: bool)
        ensures
            r == (self.dim >= 3),
    {
        self.dim >= 3
    }

    /// Goes on to the next swap. After both directions of a hop the ghosts
    /// received so far are looked at too.
    pub fn advance(&mut self, maxneed: [i32; 3], nlocal: u32, nghost: u32)
        requires
            old(self).wf(maxneed),
            old(self).dim < 3,
            swaps_before(maxneed, 3) <= usize::MAX,
            nlocal + nghost <= usize::MAX,
        ensures
            final(self).wf(maxneed),
            final(self).swap_idx == old(self).swap_idx + 1,
            old(self).swap == 0 ==> {
                &&& final(self).dim == old(self).dim
                &&& final(self).need == old(self).need
                &&& final(self).swap == 1
                &&& final(self).scan_end == old(self).scan_end
            },
            old(self).swap == 1 ==> {
                &&& final(self).swap == 0
                &&& final(self).scan_end == nlocal + nghost
                &&& old(self).need + 1 < maxneed[old(self).dim as int] ==> final(self).dim
                    == old(self).dim && final(self).need == old(self).need + 1
                &&& old(self).need + 1 >= maxneed[old(self).dim as int] ==> final(self).dim
                    > old(self).dim && final(self).need == 0
            },
    {
        proof {
            lemma_swaps_grow(maxneed, self.dim + 1, 3);
        }
        self.swap_idx = self.swap_idx + 1;
        if self.swap == 0 {
            self.swap = 1;
        } else {
            self.swap = 0;
            self.scan_end = nlocal as usize + nghost as usize;
            if self.need + 1 < maxneed[self.dim] {
                self.need = self.need + 1;
            } else {
                self.need = 0;
                self.dim = BorderPass::first_axis(maxneed, self.dim + 1);
            }
        }
    }
}

proof fn lemma_swaps_grow(maxneed: [i32; 3], a: int, b: int)
    requires
        0 <= a <= b,
    ensures
        0 <= swaps_before(maxneed, a) <= swaps_before(maxneed, b),
    decreases b,
{
    if a < b {
        lemma_swaps_grow(maxneed, a, b - 1);
    } else if b > 0 {
        lemma_swaps_grow(maxneed, b - 1, b - 1);
    }
}

/// Every number below the total is the number of exactly one swap, so a rebuild
/// makes two swaps for every hop along every axis and no others.
pub proof fn swaps_are_numbered_once(maxneed: [i32; 3], a: BorderPass, b: BorderPass)
    requires
        a.wf(maxneed),
        b.wf(maxneed),
        a.swap_idx == b.swap_idx,
    ensures
        a.dim == b.dim,
        a.dim < 3 ==> a.need == b.need && a.swap == b.swap && a.swap_idx < swaps_before(maxneed, 3),
{
    if a.dim < b.dim {
        lemma_swaps_grow(maxneed, a.dim + 1, b.dim as int);
    }
    if b.dim < a.dim {
        lemma_swaps_grow(maxneed, b.dim + 1, a.dim as int);
    }
    if a.dim < 3 {
        lemma_swaps_grow(maxneed, a.dim + 1, 3);
    }
}

/// What a process does with the ghosts of one swap.
#[derive(Clone, Copy, PartialEq, Eq, Structural, Debug)]
pub enum BorderAction {
    /// The neighbour is this process.
    SelfSend,
    Exchange(Transfer),
}

/// What a process does with the ghosts of one swap.
pub fn border_action(to_proc: i32, from_proc: i32, rank: i32) -> (r: BorderAction)
    ensures
        r == if to_proc == rank {
            BorderAction::SelfSend
        } else {
            BorderAction::Exchange(transfer_of(to_proc, from_proc))
        },
{
    if to_proc == rank {
        BorderAction::SelfSend
    } else {
        BorderAction::Exchange(transfer(to_proc, from_proc))
    }
}

/// One swap that is under way.
pub struct BorderSwap {
    pub to_proc: i32,
    pub from_proc: i32,
    pub periodic_offset: Vec3,
    pub send_indices: Vec<usize>,
}

/// Packs the ghosts of the current swap into `send_buff`.
pub fn border_pack<D: AtomData, F: Fn(Op, Scalar, Scalar, Scalar) -> Scalar>(
    atoms: &Atom,
    registry: &AtomDataRegistry<D>,
    topo: &CommTopology,
    domain: &Domain,
    pass: &BorderPass,
    send_buff: &mut Vec<Scalar>,
    ar: &F,
) -> (r: BorderSwap)
    requires
        is_arithmetic(*ar),
        atoms.wf(),
        registry.wf(),
        pass.dim < 3,
        pass.swap < 2,
        pass.scan_end <= atoms.records().len(),
        pass.scan_end <= i32::MAX,
        registry.parallel_to(atoms.records().len() as int),
    ensures
        r.to_proc == topo.swap_directions[pass.swap as int][pass.dim as int],
        r.from_proc == topo.swap_directions[1 - pass.swap as int][pass.dim as int],
        r.periodic_offset == along(
            pass.dim as int,
            product(
                *ar,
                topo.periodic_swap[pass.swap as int][pass.dim as int],
                domain.size[pass.dim as int],
            ),
        ),
        r.send_indices@ == skin_atoms(
            *ar,
            *atoms,
            *domain,
            pass.dim as int,
            pass.swap as int,
            domain.ghost_cutoff,
            pass.scan_end as int,
        ),
        forall|k: int|
            0 <= k < r.send_indices@.len() ==> (#[trigger] r.send_indices@[k]) < pass.scan_end,
        final(send_buff)@ == joined(
            border_parts(*ar, *atoms, registry.stores@, r.periodic_offset, r.send_indices@),
        ),
{
    let to_proc: i32 = topo.swap_directions[pass.swap][pass.dim];
    let from_proc: i32 = topo.swap_directions[(pass.swap + 1) % 2][pass.dim];
    let crossing: Scalar = topo.periodic_swap[pass.swap][pass.dim];
    let periodic_offset: Vec3 = offset_along(
        pass.dim,
        times(ar, crossing, domain.size[pass.dim]),
    );
    send_buff.clear();
    let mut send_indices: Vec<usize> = Vec::new();
    let _count: i32 = pack_border_atoms(
        atoms,
        registry,
        pass.dim,
        pass.swap,
        crossing,
        domain,
        send_buff,
        &mut send_indices,
        pass.scan_end,
        domain.ghost_cutoff,
        ar,
    );
    let r: BorderSwap = BorderSwap { to_proc, from_proc, periodic_offset, send_indices };
    proof {
        lemma_skin_atoms_range(
            *ar,
            *atoms,
            *domain,
            pass.dim as int,
            pass.swap as int,
            domain.ghost_cutoff,
            pass.scan_end as int,
        );
    }
    assert(send_buff@ =~= joined(
        border_parts(*ar, *atoms, registry.stores@, r.periodic_offset, r.send_indices@),
    ));
    r
}

/// Where every element stems from.
proof fn lemma_skin_atoms_range<F: Fn(Op, Scalar, Scalar, Scalar) -> Scalar>(
    ar: F,
    atoms: Atom,
    domain: Domain,
    dim: int,
    swap: int,
    cut: Scalar,
    n: int,
)
    requires
        0 <= n <= usize::MAX,
    ensures
        forall|k: int|
            0 <= k < skin_atoms(ar, atoms, domain, dim, swap, cut, n).len() ==> (
            #[trigger] skin_atoms(ar, atoms, domain, dim, swap, cut, n)[k]) < n,
    decreases n,
{
    if n > 0 {
        lemma_skin_atoms_range(ar, atoms, domain, dim, swap, cut, n - 1);
        let s: Seq<usize> = skin_atoms(ar, atoms, domain, dim, swap, cut, n);
        let rest: Seq<usize> = skin_atoms(ar, atoms, domain, dim, swap, cut, n - 1);
        assert forall|k: int| 0 <= k < s.len() implies (#[trigger] s[k]) < n by {
            if k < rest.len() {
                assert(rest[k] < n - 1);
            }
        }
    }
}

/// Ghost `rec` is a copy of atom `i`, moved by `by`.
pub open spec fn mirrors<F: Fn(Op, Scalar, Scalar, Scalar) -> Scalar>(
    ar: F,
    rec: Record,
    owner: Record,
    i: int,
    by: Vec3,
) -> bool {
    &&& rec.is_ghost
    &&& rec.origin_index == i
    &&& rec.tag == owner.tag
    &&& rec.atom_type == owner.atom_type
    &&& forall|d: int| 0 <= d < 3 ==> #[trigger] rec.pos[d] == sum(ar, owner.pos[d], by[d])
    &&& rec.vel == owner.vel
    &&& rec.force == owner.force
    &&& rec.cutoff_radius == owner.cutoff_radius
    &&& rec.mass == owner.mass
    &&& rec.inv_mass == quotient(ar, Scalar::one(), owner.mass)
    &&& rec.image == owner.image
}

/// Turns the packed ghosts of a swap with itself into ghosts. Each is a copy
/// of its owner, moved by the offset, and its extension data are its owner's.
pub fn border_self_send<D: AtomData, F: Fn(Op, Scalar, Scalar, Scalar) -> Scalar>(
    atoms: &mut Atom,
    registry: &mut AtomDataRegistry<D>,
    swap: &BorderSwap,
    send_buff: &mut Vec<Scalar>,
    ar: &F,
)
    requires
        is_arithmetic(*ar),
        old(atoms).wf(),
        old(registry).wf(),
        old(registry).parallel_to(old(atoms).records().len() as int),
        old(atoms).records().len() <= i32::MAX,
        forall|k: int|
            0 <= k < swap.send_indices@.len() ==> (#[trigger] swap.send_indices@[k])
                < old(atoms).records().len(),
        old(send_buff)@ == joined(
            border_parts(
                *ar,
                *old(atoms),
                old(registry).stores@,
                swap.periodic_offset,
                swap.send_indices@,
            ),
        ),
        swap.send_indices@.len() <= 2 * FRACTION,
        old(atoms).nghost + swap.send_indices@.len() <= u32::MAX,
    ensures
        received_atoms(
            *old(atoms),
            *final(atoms),
            *old(registry),
            *final(registry),
            old(send_buff)@,
            swap.send_indices@.len() as int,
            true,
            *ar,
        ),
        final(atoms).nghost == old(atoms).nghost + swap.send_indices@.len(),
        final(atoms).nlocal == old(atoms).nlocal,
        final(atoms).natoms == old(atoms).natoms,
        final(atoms).ntypes == old(atoms).ntypes,
        final(atoms).dt == old(atoms).dt,
        forall|k: int|
            0 <= k < swap.send_indices@.len() ==> mirrors(
                *ar,
                #[trigger] final(atoms).records()[old(atoms).records().len() + k],
                old(atoms).record(swap.send_indices@[k] as int),
                swap.send_indices@[k] as int,
                swap.periodic_offset,
            ),
        forall|s: int, k: int|
            0 <= s < old(registry).stores@.len() && 0 <= k < swap.send_indices@.len() ==> (
            #[trigger] final(registry).stores@[s].data.rows()[old(atoms).records().len() + k])
                == old(registry).stores@[s].data.rows()[swap.send_indices@[k] as int],
        forall|s: int|
            0 <= s < old(registry).stores@.len() ==> (
            #[trigger] final(registry).stores@[s]).data.rows().take(
                old(atoms).records().len() as int,
            ) == old(registry).stores@[s].data.rows(),
{
    let count: usize = swap.send_indices.len();
    let ghost data: Seq<Scalar> = send_buff@;
    let ghost stores: Seq<Entry<D>> = registry.stores@;
    let ghost first: int = atoms.records().len() as int;
    let ghost parts: Seq<Seq<Scalar>> = border_parts(
        *ar,
        *atoms,
        stores,
        swap.periodic_offset,
        swap.send_indices@,
    );
    let ghost heads: Seq<Seq<Scalar>> = Seq::new(
        count as nat,
        |k: int| border_words(*atoms, swap.send_indices@[k] as int, swap.periodic_offset, *ar),
    );
    let ghost indices: Seq<int> = Seq::new(count as nat, |k: int| swap.send_indices@[k] as int);
    proof {
        assert(crate::transport::atom_parts(parts, heads, stores, indices)) by {
            assert forall|j: int| 0 <= j < parts.len() implies {
                &&& #[trigger] parts[j] == heads[j] + packed_rows(
                    stores,
                    indices[j],
                    stores.len() as int,
                )
                &&& heads[j].len() == crate::atom::ATOM_PACK_SIZE
                &&& crate::transport::holds_atom(stores, indices[j])
            } by {
                assert(swap.send_indices@[j] < first);
            }
        }
        crate::transport::atoms_travel(parts, heads, stores, stores, indices, count as int);
    }
    send_buff.push(Scalar::from_u64(count as u64));
    assert(send_buff@.drop_last() =~= data);
    unpack_ghost_atoms(atoms, registry, send_buff, count, ar);
    proof {
        assert forall|k: int| 0 <= k < count implies mirrors(
            *ar,
            #[trigger] atoms.records()[first + k],
            old(atoms).record(swap.send_indices@[k] as int),
            swap.send_indices@[k] as int,
            swap.periodic_offset,
        ) by {
            let i: int = swap.send_indices@[k] as int;
            let rest: Seq<Scalar> = data.skip(atom_start(stores, data, k)).skip(17);
            assert(data.skip(atom_start(stores, data, k)).take(17) == heads[k]);
            crate::transport::atoms_travel(parts, heads, stores, stores, indices, k);
            assert(atom_start(stores, data, k) + 17 <= data.len());
            assert(data.skip(atom_start(stores, data, k)) =~= heads[k] + rest);
            crate::atom::ghost_is_an_image(
                *old(atoms),
                i,
                swap.periodic_offset,
                *ar,
                rest,
                atoms.records()[first + k],
                quotient(*ar, Scalar::one(), data[atom_start(stores, data, k) + 13]),
            );
        }
        assert forall|s: int, k: int|
            0 <= s < stores.len() && 0 <= k < count implies (
        #[trigger] registry.stores@[s].data.rows()[first + k])
            == stores[s].data.rows()[swap.send_indices@[k] as int] by {
            assert(crate::ghosts::row_in_message(stores, data, k, s)
                == stores[s].data.rows()[indices[k]]);
            assert(registry.stores@[s].data.rows() == stores[s].data.rows() + Seq::new(
                count as nat,
                |j: int| crate::ghosts::row_in_message(stores, data, j, s),
            ));
            assert(stores[s].data.rows().len() == first);
        }
    }
}

/// Remembers a finished swap, in place of the swap with the same number of the
/// last rebuild.
pub fn border_record(
    topo: &mut CommTopology,
    swap_idx: usize,
    swap: BorderSwap,
    recv_start: usize,
    recv_count: usize,
)
    requires
        swap_idx <= old(topo).swap_data@.len(),
    ensures
        final(topo).swap_directions == old(topo).swap_directions,
        final(topo).periodic_swap == old(topo).periodic_swap,
        final(topo).maxneed == old(topo).maxneed,
        final(topo).swap_data@.len() == if swap_idx == old(topo).swap_data@.len() {
            old(topo).swap_data@.len() + 1
        } else {
            old(topo).swap_data@.len()
        },
        forall|k: int|
            0 <= k < old(topo).swap_data@.len() && k != swap_idx ==> final(topo).swap_data@[k]
                == old(topo).swap_data@[k],
        ({
            let entry = final(topo).swap_data@[swap_idx as int];
            &&& entry.send_indices == swap.send_indices
            &&& entry.recv_start == recv_start
            &&& entry.recv_count == recv_count
            &&& entry.to_proc == swap.to_proc
            &&& entry.from_proc == swap.from_proc
            &&& entry.periodic_offset == swap.periodic_offset
        }),
{
    let entry: SwapData = SwapData {
        send_indices: swap.send_indices,
        recv_start,
        recv_count,
        to_proc: swap.to_proc,
        from_proc: swap.from_proc,
        periodic_offset: swap.periodic_offset,
    };
    if swap_idx == topo.swap_data.len() {
        topo.swap_data.push(entry);
    } else {
        topo.swap_data.set(swap_idx, entry);
    }
}

/// Forgets the swaps of an earlier rebuild that made more of them.
pub fn end_borders(topo: &mut CommTopology, swap_idx: usize)
    requires
        swap_idx <= old(topo).swap_data@.len(),
    ensures
        final(topo).swap_data@ == old(topo).swap_data@.take(swap_idx as int),
        final(topo).swap_directions == old(topo).swap_directions,
        final(topo).periodic_swap == old(topo).periodic_swap,
        final(topo).maxneed == old(topo).maxneed,
{
    topo.swap_data.truncate(swap_idx);
    assert(topo.swap_data@ =~= old(topo).swap_data@.take(swap_idx as int));
}

} // verus!

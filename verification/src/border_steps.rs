//! The rebuilding of the ghosts as a sequence of steps. Between two steps lies
//! at most one exchange of messages; what holds between the steps is stated
//! once, and when the last step is done the swaps are fit for every refresh that
//! follows.

use crate::atom::Atom;
use crate::atom_data::{AtomData, AtomDataRegistry};
use crate::borders::{
    begin_borders, border_action, border_pack, border_record, border_self_send, compute_maxneed,
    end_borders, mirrors, need_of, swaps_before, BorderAction, BorderPass, BorderSwap,
};
use crate::comm::{
    grid_valid, in_grid, neighbor_set, place_round_trip, rank_of, step, steps_are_opposite,
    CommTopology, SwapData,
};
use crate::domain::Domain;
use crate::exchange::{transfer_of, Transfer};
use crate::ghosts::{
    along, border_parts, readable_atoms, received_atoms, skin_atoms, unpack_ghost_payload,
};
use crate::refresh::indices_fit;
use crate::scalar::{is_arithmetic, product, Op, Scalar};
use crate::transport::joined;
use vstd::prelude::*;

verus! {

/// The swap can be refreshed on `n` atoms: the ghosts that are received are
/// among them, the atoms that are sent come before those ghosts, and a process
/// that sends to itself receives what it sends.
pub open spec fn swap_ready(swap: SwapData, n: int, rank: i32) -> bool {
    &&& indices_fit(swap.send_indices@, swap.recv_start as int)
    &&& swap.recv_start + swap.recv_count <= n
    &&& swap.to_proc == rank || swap.from_proc == rank ==> swap.recv_count
        == swap.send_indices@.len()
}

/// The first `k` swaps can be refreshed on `n` atoms, and their ghosts stand one
/// after the other.
pub open spec fn swaps_ready(swaps: Seq<SwapData>, k: int, n: int, rank: i32) -> bool {
    &&& k <= swaps.len()
    &&& forall|j: int| 0 <= j < k ==> swap_ready(#[trigger] swaps[j], n, rank)
    &&& forall|i: int, j: int|
        0 <= i < j < k ==> (#[trigger] swaps[i]).recv_start + swaps[i].recv_count <= (
        #[trigger] swaps[j]).recv_start
}

/// The ghosts of the first `k` swaps follow the local atoms without a gap, and no
/// others come after them.
pub open spec fn swaps_contiguous(swaps: Seq<SwapData>, k: int, nlocal: int, n: int) -> bool {
    &&& k <= swaps.len()
    &&& k == 0 ==> n == nlocal
    &&& k > 0 ==> swaps[0].recv_start == nlocal && swaps[k - 1].recv_start + swaps[k - 1].recv_count
        == n
    &&& forall|j: int|
        1 <= j < k ==> (#[trigger] swaps[j]).recv_start == swaps[j - 1].recv_start + swaps[j
            - 1].recv_count
}

/// Along each axis a process is its own neighbour on both sides or on none.
pub open spec fn self_paired(topo: CommTopology, rank: i32) -> bool {
    forall|d: int|
        0 <= d < 3 ==> (#[trigger] topo.swap_directions[0][d] == rank <==> topo.swap_directions[1][d]
            == rank)
}

/// What holds between two steps.
pub open spec fn between_steps<D: AtomData>(
    pass: BorderPass,
    atoms: Atom,
    registry: AtomDataRegistry<D>,
    topo: CommTopology,
    rank: i32,
) -> bool {
    &&& atoms.wf()
    &&& registry.wf()
    &&& registry.parallel_to(atoms.records().len() as int)
    &&& atoms.nlocal + atoms.nghost == atoms.records().len()
    &&& pass.wf(topo.maxneed)
    &&& pass.scan_end <= atoms.records().len()
    &&& swaps_before(topo.maxneed, 3) <= usize::MAX
    &&& swaps_ready(topo.swap_data@, pass.swap_idx as int, atoms.records().len() as int, rank)
    &&& swaps_contiguous(
        topo.swap_data@,
        pass.swap_idx as int,
        atoms.nlocal as int,
        atoms.records().len() as int,
    )
    &&& self_paired(topo, rank)
}

/// `swap` is what the step sends, and to whom.
pub open spec fn outgoing<F: Fn(Op, Scalar, Scalar, Scalar) -> Scalar>(
    ar: F,
    atoms: Atom,
    topo: CommTopology,
    domain: Domain,
    pass: BorderPass,
    to_proc: i32,
    from_proc: i32,
    periodic_offset: crate::scalar::Vec3,
    send_indices: Seq<usize>,
) -> bool {
    &&& to_proc == topo.swap_directions[pass.swap as int][pass.dim as int]
    &&& from_proc == topo.swap_directions[1 - pass.swap as int][pass.dim as int]
    &&& periodic_offset == along(
        pass.dim as int,
        product(
            ar,
            topo.periodic_swap[pass.swap as int][pass.dim as int],
            domain.size[pass.dim as int],
        ),
    )
    &&& send_indices == skin_atoms(
        ar,
        atoms,
        domain,
        pass.dim as int,
        pass.swap as int,
        domain.ghost_cutoff,
        pass.scan_end as int,
    )
}

/// The topology with the swap of a step recorded.
pub open spec fn recorded<F: Fn(Op, Scalar, Scalar, Scalar) -> Scalar>(
    ar: F,
    atoms: Atom,
    domain: Domain,
    pass: BorderPass,
    topo: CommTopology,
    new: CommTopology,
    recv_count: int,
) -> bool {
    let k = pass.swap_idx as int;
    let entry = new.swap_data@[k];
    &&& new.swap_directions == topo.swap_directions
    &&& new.periodic_swap == topo.periodic_swap
    &&& new.maxneed == topo.maxneed
    &&& k < new.swap_data@.len()
    &&& forall|j: int| 0 <= j < k ==> #[trigger] new.swap_data@[j] == topo.swap_data@[j]
    &&& outgoing(
        ar,
        atoms,
        topo,
        domain,
        pass,
        entry.to_proc,
        entry.from_proc,
        entry.periodic_offset,
        entry.send_indices@,
    )
    &&& entry.recv_start == atoms.records().len()
    &&& entry.recv_count == recv_count
}

/// The next step. Once both directions of a hop are done, the `n` atoms that are
/// there by then are looked at.
pub open spec fn advanced(pass: BorderPass, new: BorderPass, n: int) -> bool {
    &&& new.swap_idx == pass.swap_idx + 1
    &&& new.scan_end == if pass.swap == 1 {
        n
    } else {
        pass.scan_end as int
    }
}

/// What a step leaves to be done.
pub enum BorderStep {
    /// Nothing: the ghosts of the step are there.
    Done,
    /// The message has to be exchanged, and what comes back handed on.
    Exchange { transfer: Transfer, swap: BorderSwap },
}

proof fn lemma_swaps_stay(swaps: Seq<SwapData>, new: Seq<SwapData>, k: int, n: int, m: int, rank: i32)
    requires
        swaps_ready(swaps, k, n, rank),
        n <= m,
        k <= new.len(),
        forall|j: int| 0 <= j < k ==> #[trigger] new[j] == swaps[j],
    ensures
        swaps_ready(new, k, m, rank),
{
    assert forall|j: int| 0 <= j < k implies swap_ready(#[trigger] new[j], m, rank) by {
        assert(swap_ready(swaps[j], n, rank));
    }
    assert forall|i: int, j: int| 0 <= i < j < k implies (#[trigger] new[i]).recv_start
        + new[i].recv_count <= (#[trigger] new[j]).recv_start by {
        assert(swaps[i].recv_start + swaps[i].recv_count <= swaps[j].recv_start);
    }
}

/// One more swap, whose ghosts are the last.
proof fn lemma_swap_added(swaps: Seq<SwapData>, k: int, n: int, first: int, rank: i32)
    requires
        swaps_ready(swaps, k, n, rank),
        k < swaps.len(),
        swap_ready(swaps[k], n, rank),
        swaps[k].recv_start == first,
        forall|j: int| 0 <= j < k ==> (#[trigger] swaps[j]).recv_start + swaps[j].recv_count <= first,
    ensures
        swaps_ready(swaps, k + 1, n, rank),
{
}


/// The hops along each axis: those that are known, else enough for the cutoff.
pub open spec fn hops_set<F: Fn(Op, Scalar, Scalar, Scalar) -> Scalar>(
    ar: F,
    before: [i32; 3],
    after: [i32; 3],
    decomp: [i32; 3],
    domain: Domain,
) -> bool {
    if before[0] == 0 && before[1] == 0 && before[2] == 0 {
        forall|d: int|
            0 <= d < 3 ==> #[trigger] after[d] == need_of(
                ar,
                decomp[d],
                domain.ghost_cutoff,
                domain.sub_length[d],
            )
    } else {
        after == before
    }
}

/// Starts the rebuilding: the old ghosts are dropped, and the number of hops is
/// computed where it is not known yet. `None` where there would be more swaps
/// than can be counted.
pub fn start_borders<D: AtomData, F: Fn(Op, Scalar, Scalar, Scalar) -> Scalar>(
    atoms: &mut Atom,
    registry: &mut AtomDataRegistry<D>,
    topo: &mut CommTopology,
    domain: &Domain,
    decomp: [i32; 3],
    rank: i32,
    ar: &F,
) -> (r: Option<BorderPass>)
    requires
        is_arithmetic(*ar),
        old(atoms).wf(),
        old(registry).wf(),
        old(atoms).nlocal <= old(atoms).records().len() <= u32::MAX,
        old(registry).parallel_to(old(atoms).records().len() as int),
        self_paired(*old(topo), rank),
    ensures
        final(atoms).wf(),
        final(registry).wf(),
        final(registry).parallel_to(final(atoms).records().len() as int),
        final(atoms).nlocal == final(atoms).records().len(),
        final(registry).same_stores(old(registry)),
        final(atoms).records() == if old(atoms).nghost > 0 {
            old(atoms).records().take(old(atoms).nlocal as int)
        } else {
            old(atoms).records()
        },
        final(atoms).nghost == 0,
        final(atoms).natoms == old(atoms).natoms,
        final(atoms).ntypes == old(atoms).ntypes,
        final(atoms).dt == old(atoms).dt,
        forall|k: int|
            0 <= k < old(registry).stores@.len() ==> (
            #[trigger] final(registry).stores@[k]).data.rows() == if old(atoms).nghost > 0 {
                old(registry).stores@[k].data.rows().take(old(atoms).nlocal as int)
            } else {
                old(registry).stores@[k].data.rows()
            },
        hops_set(*ar, old(topo).maxneed, final(topo).maxneed, decomp, *domain),
        final(topo).swap_directions == old(topo).swap_directions,
        final(topo).periodic_swap == old(topo).periodic_swap,
        final(topo).swap_data == old(topo).swap_data,
        r is None <==> swaps_before(final(topo).maxneed, 3) > usize::MAX,
        r matches Some(pass) ==> {
            &&& between_steps(pass, *final(atoms), *final(registry), *final(topo), rank)
            &&& pass.swap_idx == 0
            &&& pass.scan_end == final(atoms).records().len()
        },
{
    begin_borders(atoms, registry);
    topo.maxneed =
    compute_maxneed(topo.maxneed, decomp, domain.sub_length, domain.ghost_cutoff, ar);
    let mut swaps: u64 = 0;
    let mut d: usize = 0;
    while d < 3
        invariant
            d <= 3,
            swaps == swaps_before(topo.maxneed, d as int),
            swaps <= d * 0x1_0000_0000,
        decreases 3 - d,
    {
        if topo.maxneed[d] > 0 {
            swaps = swaps + 2 * topo.maxneed[d] as u64;
        }
        d = d + 1;
    }
    if swaps > usize::MAX as u64 {
        return None;
    }
    Some(BorderPass::begin(topo.maxneed, atoms.nlocal))
}

/// Takes one step: the atoms near a face are packed. A process that is its own
/// neighbour there makes the ghosts at once; else the message has to be
/// exchanged, and the step is finished by `border_receive`.
pub fn border_step<D: AtomData, F: Fn(Op, Scalar, Scalar, Scalar) -> Scalar>(
    atoms: &mut Atom,
    registry: &mut AtomDataRegistry<D>,
    topo: &mut CommTopology,
    domain: &Domain,
    pass: &mut BorderPass,
    send_buff: &mut Vec<Scalar>,
    rank: i32,
    ar: &F,
) -> (r: BorderStep)
    requires
        is_arithmetic(*ar),
        between_steps(*old(pass), *old(atoms), *old(registry), *old(topo), rank),
        old(pass).dim < 3,
        old(atoms).records().len() <= i32::MAX,
    ensures
        between_steps(*final(pass), *final(atoms), *final(registry), *final(topo), rank),
        match r {
            BorderStep::Done => {
                let entry = final(topo).swap_data@[old(pass).swap_idx as int];
                let first = old(atoms).records().len();
                &&& old(topo).swap_directions[old(pass).swap as int][old(pass).dim as int] == rank
                &&& recorded(
                    *ar,
                    *old(atoms),
                    *domain,
                    *old(pass),
                    *old(topo),
                    *final(topo),
                    entry.send_indices@.len() as int,
                )
                &&& final(atoms).records().len() == first + entry.send_indices@.len()
                &&& final(atoms).records().take(first as int) == old(atoms).records()
                &&& final(atoms).nlocal == old(atoms).nlocal
                &&& final(atoms).natoms == old(atoms).natoms
                &&& final(atoms).ntypes == old(atoms).ntypes
                &&& final(atoms).dt == old(atoms).dt
                &&& forall|k: int|
                    0 <= k < entry.send_indices@.len() ==> mirrors(
                        *ar,
                        #[trigger] final(atoms).records()[first + k],
                        old(atoms).record(entry.send_indices@[k] as int),
                        entry.send_indices@[k] as int,
                        entry.periodic_offset,
                    )
                &&& forall|s: int, k: int|
                    0 <= s < old(registry).stores@.len() && 0 <= k < entry.send_indices@.len() ==> (
                    #[trigger] final(registry).stores@[s].data.rows()[first + k])
                        == old(registry).stores@[s].data.rows()[entry.send_indices@[k] as int]
                &&& forall|s: int|
                    0 <= s < old(registry).stores@.len() ==> (
                    #[trigger] final(registry).stores@[s]).data.rows().take(first as int)
                        == old(registry).stores@[s].data.rows()
                &&& final(registry).same_stores(old(registry))
                &&& advanced(*old(pass), *final(pass), final(atoms).records().len() as int)
            },
            BorderStep::Exchange { transfer, swap } => {
                &&& old(topo).swap_directions[old(pass).swap as int][old(pass).dim as int] != rank
                &&& *final(atoms) == *old(atoms)
                &&& *final(registry) == *old(registry)
                &&& *final(topo) == *old(topo)
                &&& *final(pass) == *old(pass)
                &&& swap.to_proc != rank && swap.from_proc != rank
                &&& transfer == transfer_of(swap.to_proc, swap.from_proc)
                &&& outgoing(
                    *ar,
                    *old(atoms),
                    *old(topo),
                    *domain,
                    *old(pass),
                    swap.to_proc,
                    swap.from_proc,
                    swap.periodic_offset,
                    swap.send_indices@,
                )
                &&& indices_fit(swap.send_indices@, old(pass).scan_end as int)
                &&& final(send_buff)@ == joined(
                    border_parts(
                        *ar,
                        *old(atoms),
                        old(registry).stores@,
                        swap.periodic_offset,
                        swap.send_indices@,
                    ),
                )
            },
        },
{
    let ghost first: int = atoms.records().len() as int;
    let swap: BorderSwap = border_pack(atoms, registry, topo, domain, pass, send_buff, ar);
    assert(topo.swap_directions[0][pass.dim as int] == rank <==> topo.swap_directions[1][pass.dim as int]
        == rank);
    match border_action(swap.to_proc, swap.from_proc, rank) {
        BorderAction::SelfSend => {
            let start: usize = atoms.len();
            let count: usize = swap.send_indices.len();
            proof {
                lemma_skin_count(
                    *ar,
                    *atoms,
                    *domain,
                    pass.dim as int,
                    pass.swap as int,
                    domain.ghost_cutoff,
                    pass.scan_end as int,
                );
            }
            border_self_send(atoms, registry, &swap, send_buff, ar);
            border_record(topo, pass.swap_idx, swap, start, count);
            proof {
                let n: int = atoms.records().len() as int;
                let k: int = pass.swap_idx as int;
                lemma_swaps_stay(old(topo).swap_data@, topo.swap_data@, k, first, n, rank);
                assert(swap_ready(topo.swap_data@[k], n, rank));
                assert forall|j: int| 0 <= j < k implies (#[trigger] topo.swap_data@[j]).recv_start
                    + topo.swap_data@[j].recv_count <= first by {
                    assert(swap_ready(old(topo).swap_data@[j], first, rank));
                }
                lemma_swap_added(topo.swap_data@, k, n, first, rank);
            }
            pass.advance(topo.maxneed, atoms.nlocal, atoms.nghost);
            BorderStep::Done
        },
        BorderAction::Exchange(transfer) => BorderStep::Exchange { transfer, swap },
    }
}

/// Finishes a step whose message was exchanged: what came back becomes ghosts.
/// Without anything received the step has no ghosts.
pub fn border_receive<D: AtomData, F: Fn(Op, Scalar, Scalar, Scalar) -> Scalar>(
    atoms: &mut Atom,
    registry: &mut AtomDataRegistry<D>,
    topo: &mut CommTopology,
    pass: &mut BorderPass,
    swap: BorderSwap,
    payload: &[Scalar],
    count: usize,
    rank: i32,
    ar: &F,
)
    requires
        is_arithmetic(*ar),
        between_steps(*old(pass), *old(atoms), *old(registry), *old(topo), rank),
        old(pass).dim < 3,
        indices_fit(swap.send_indices@, old(pass).scan_end as int),
        swap.to_proc != rank,
        swap.from_proc != rank,
        readable_atoms(old(registry).stores@, payload@, count as int),
        old(atoms).nghost + count <= u32::MAX,
    ensures
        between_steps(*final(pass), *final(atoms), *final(registry), *final(topo), rank),
        received_atoms(
            *old(atoms),
            *final(atoms),
            *old(registry),
            *final(registry),
            payload@,
            count as int,
            true,
            *ar,
        ),
        final(atoms).nghost == old(atoms).nghost + count,
        final(atoms).nlocal == old(atoms).nlocal,
        final(atoms).natoms == old(atoms).natoms,
        final(atoms).ntypes == old(atoms).ntypes,
        final(atoms).dt == old(atoms).dt,
        advanced(*old(pass), *final(pass), final(atoms).records().len() as int),
        final(topo).swap_directions == old(topo).swap_directions,
        final(topo).periodic_swap == old(topo).periodic_swap,
        final(topo).maxneed == old(topo).maxneed,
        forall|j: int|
            0 <= j < old(pass).swap_idx ==> #[trigger] final(topo).swap_data@[j]
                == old(topo).swap_data@[j],
        ({
            let entry = final(topo).swap_data@[old(pass).swap_idx as int];
            &&& entry.send_indices == swap.send_indices
            &&& entry.recv_start == old(atoms).records().len()
            &&& entry.recv_count == count
            &&& entry.to_proc == swap.to_proc
            &&& entry.from_proc == swap.from_proc
            &&& entry.periodic_offset == swap.periodic_offset
        }),
{
    let ghost first: int = atoms.records().len() as int;
    let start: usize = atoms.len();
    unpack_ghost_payload(atoms, registry, payload, count, ar);
    let end: usize = atoms.len();
    assert(atoms.nlocal + atoms.nghost == end);
    border_record(topo, pass.swap_idx, swap, start, count);
    proof {
        let n: int = atoms.records().len() as int;
        let k: int = pass.swap_idx as int;
        assert(n == first + count);
        lemma_swaps_stay(old(topo).swap_data@, topo.swap_data@, k, first, n, rank);
        assert(swap_ready(topo.swap_data@[k], n, rank));
        assert forall|j: int| 0 <= j < k implies (#[trigger] topo.swap_data@[j]).recv_start
            + topo.swap_data@[j].recv_count <= first by {
            assert(swap_ready(old(topo).swap_data@[j], first, rank));
        }
        lemma_swap_added(topo.swap_data@, k, n, first, rank);
    }
    pass.advance(topo.maxneed, atoms.nlocal, atoms.nghost);
}

/// Ends the rebuilding: swaps of an earlier one are dropped. All swaps are fit
/// for a refresh.
pub fn finish_borders<D: AtomData>(
    atoms: &Atom,
    registry: &AtomDataRegistry<D>,
    topo: &mut CommTopology,
    pass: &BorderPass,
    rank: i32,
)
    requires
        between_steps(*pass, *atoms, *registry, *old(topo), rank),
        pass.dim == 3,
    ensures
        final(topo).swap_data@ == old(topo).swap_data@.take(pass.swap_idx as int),
        final(topo).swap_data@.len() == swaps_before(old(topo).maxneed, 3),
        swaps_ready(
            final(topo).swap_data@,
            final(topo).swap_data@.len() as int,
            atoms.records().len() as int,
            rank,
        ),
        swaps_contiguous(
            final(topo).swap_data@,
            final(topo).swap_data@.len() as int,
            atoms.nlocal as int,
            atoms.records().len() as int,
        ),
        final(topo).swap_directions == old(topo).swap_directions,
        final(topo).periodic_swap == old(topo).periodic_swap,
        final(topo).maxneed == old(topo).maxneed,
{
    end_borders(topo, pass.swap_idx);
    proof {
        lemma_swaps_stay(
            old(topo).swap_data@,
            topo.swap_data@,
            pass.swap_idx as int,
            atoms.records().len() as int,
            atoms.records().len() as int,
            rank,
        );
    }
}

/// A topology that was set up for the place of this process pairs it with
/// itself on both sides or on none.
pub proof fn set_up_process_is_self_paired(
    before: CommTopology,
    topo: CommTopology,
    decomp: [i32; 3],
    pos: Seq<int>,
    periodic: [bool; 3],
    rank: i32,
)
    requires
        grid_valid(decomp),
        in_grid(pos, decomp),
        rank == rank_of(pos, decomp),
        forall|d: int, swap: int|
            0 <= d < 3 && (swap == 0 || swap == 1) ==> #[trigger] neighbor_set(
                before,
                topo,
                decomp,
                pos,
                periodic,
                d,
                swap,
            ),
        forall|d: int, swap: int|
            0 <= d < 3 && (swap == 0 || swap == 1) ==> #[trigger] before.swap_directions[swap][d]
                == -1,
    ensures
        self_paired(topo, rank),
{
    place_round_trip(pos, decomp);
    assert forall|d: int| 0 <= d < 3 implies (#[trigger] topo.swap_directions[0][d] == rank
        <==> topo.swap_directions[1][d] == rank) by {
        assert forall|swap: int| swap == 0 || swap == 1 implies (#[trigger] topo.swap_directions[swap][d]
            == rank <==> decomp[d] == 1 && periodic[d]) by {
            assert(neighbor_set(before, topo, decomp, pos, periodic, d, swap));
            assert(before.swap_directions[swap][d] == -1);
            if let Some((to, wraps)) = step(pos, decomp, periodic, d, swap) {
                steps_are_opposite(pos, decomp, periodic, d, swap);
                place_round_trip(to, decomp);
                if decomp[d] == 1 {
                    assert(to =~= pos);
                } else {
                    assert(to[d] != pos[d]);
                }
            }
        }
    }
}

/// No atom is packed twice in one step.
proof fn lemma_skin_count<F: Fn(Op, Scalar, Scalar, Scalar) -> Scalar>(
    ar: F,
    atoms: Atom,
    domain: Domain,
    dim: int,
    swap: int,
    cutoff: Scalar,
    n: int,
)
    requires
        0 <= n,
    ensures
        skin_atoms(ar, atoms, domain, dim, swap, cutoff, n).len() <= n,
    decreases n,
{
    if n > 0 {
        lemma_skin_count(ar, atoms, domain, dim, swap, cutoff, n - 1);
    }
}

} // verus!

//! A process without neighbours: its ghosts are images of its own atoms, and
//! every pass is carried out without a message.

use crate::atom::{Atom, Record};
use crate::atom_data::{forward_upto, reverse_upto, AtomData, AtomDataRegistry};
use crate::border_steps::{
    advanced, between_steps, border_receive, border_step, finish_borders, hops_set, recorded,
    self_paired, start_borders, swap_ready, swaps_contiguous, swaps_ready, BorderStep,
};
use crate::borders::{
    axis_of, mirrors, swap_number_tells_axis, swaps_are_numbered_once, swaps_before, BorderPass,
};
use crate::comm::{CommTopology, SwapData};
use crate::domain::Domain;
use crate::ghosts::{along, atoms_near_a_face_are_sent, lemma_skin_alike, skin_atoms};
use crate::refresh::{
    forces_after, forward_parts, forward_prepare_swap, forward_taken, ghosts_follow_owners,
    lemma_returns_arrive, lemma_upto_alike, lemma_words_arrive, refreshed, refreshed_rows,
    reverse_parts, reverse_prepare_swap, rows_after, Message, FORWARD_PACK_SIZE,
};
use crate::scalar::{is_arithmetic, product, sum, summing, Op, Scalar, Vec3};
use crate::transport::joined;
use vstd::prelude::*;

verus! {

/// The ghosts of the first `k` swaps are images: ghost `j` of a swap is the moved
/// image of the `j`-th atom that the swap sends.
pub open spec fn images<F: Fn(Op, Scalar, Scalar, Scalar) -> Scalar>(
    ar: F,
    records: Seq<Record>,
    swaps: Seq<SwapData>,
    k: int,
) -> bool {
    forall|m: int, j: int|
        0 <= m < k && 0 <= j < swaps[m].recv_count ==> #[trigger] image_at(ar, records, swaps[m], j)
}

/// Ghost `j` of the swap is the moved image of the `j`-th atom that it sends.
pub open spec fn image_at<F: Fn(Op, Scalar, Scalar, Scalar) -> Scalar>(
    ar: F,
    records: Seq<Record>,
    swap: SwapData,
    j: int,
) -> bool {
    0 <= j < swap.send_indices@.len() && mirrors(
        ar,
        records[swap.recv_start + j],
        records[swap.send_indices@[j] as int],
        swap.send_indices@[j] as int,
        swap.periodic_offset,
    )
}

/// Swap `k` of a rebuild: who takes part, and which atoms are sent how far. The
/// second swap of a hop looks at the atoms that were there before the first.
pub open spec fn swap_made<F: Fn(Op, Scalar, Scalar, Scalar) -> Scalar>(
    ar: F,
    atoms: Atom,
    topo: CommTopology,
    domain: Domain,
    rank: i32,
    k: int,
) -> bool {
    let swap: SwapData = topo.swap_data@[k];
    let side: int = k % 2;
    let dim: int = axis_of(topo.maxneed, k);
    &&& swap.to_proc == topo.swap_directions[side][dim]
    &&& swap.from_proc == topo.swap_directions[1 - side][dim]
    &&& swap.periodic_offset == along(
        dim,
        product(ar, topo.periodic_swap[side][dim], domain.size[dim]),
    )
    &&& swap.send_indices@ == skin_atoms(
        ar,
        atoms,
        domain,
        dim,
        side,
        domain.ghost_cutoff,
        topo.swap_data@[k - side].recv_start as int,
    )
    &&& swap.recv_count == if swap.to_proc == rank {
        swap.send_indices@.len() as int
    } else {
        0
    }
}

/// The ghosts of the first `k` swaps hold in store `s` what the atoms hold whose
/// images they are.
pub open spec fn rows_imaged(rows: Seq<Seq<Scalar>>, swaps: Seq<SwapData>, k: int) -> bool {
    forall|m: int, j: int|
        0 <= m < k && 0 <= j < swaps[m].recv_count ==> #[trigger] row_imaged(rows, swaps[m], j)
}

/// Ghost `j` of the swap holds what the atom holds that it is the image of.
pub open spec fn row_imaged(rows: Seq<Seq<Scalar>>, swap: SwapData, j: int) -> bool {
    rows[swap.recv_start + j] == rows[swap.send_indices@[j] as int]
}

/// The process has no neighbour but itself.
pub open spec fn alone(topo: CommTopology, rank: i32) -> bool {
    forall|s: int, d: int|
        0 <= s < 2 && 0 <= d < 3 ==> {
            let to = #[trigger] topo.swap_directions[s][d];
            to == rank || to == -1
        }
}

proof fn lemma_images_stay<F: Fn(Op, Scalar, Scalar, Scalar) -> Scalar>(
    ar: F,
    records: Seq<Record>,
    new_records: Seq<Record>,
    swaps: Seq<SwapData>,
    new_swaps: Seq<SwapData>,
    k: int,
    rank: i32,
)
    requires
        images(ar, records, swaps, k),
        swaps_ready(swaps, k, records.len() as int, rank),
        records.len() <= new_records.len(),
        new_records.take(records.len() as int) == records,
        k <= new_swaps.len(),
        forall|j: int| 0 <= j < k ==> #[trigger] new_swaps[j] == swaps[j],
    ensures
        images(ar, new_records, new_swaps, k),
{
    assert forall|m: int, j: int|
        0 <= m < k && 0 <= j < new_swaps[m].recv_count implies #[trigger] image_at(
        ar,
        new_records,
        new_swaps[m],
        j,
    ) by {
        assert(new_swaps[m] == swaps[m]);
        assert(swap_ready(swaps[m], records.len() as int, rank));
        assert(image_at(ar, records, swaps[m], j));
        let g: int = swaps[m].recv_start + j;
        let o: int = swaps[m].send_indices@[j] as int;
        assert(o < records.len());
        assert(new_records.take(records.len() as int)[g] == new_records[g]);
        assert(new_records.take(records.len() as int)[o] == new_records[o]);
    }
}

/// The number of atoms that are left when the ghosts are dropped.
pub open spec fn local_atoms(atoms: Atom) -> nat {
    if atoms.nghost > 0 {
        atoms.nlocal as nat
    } else {
        atoms.records().len()
    }
}

/// A swap stays as it was made when more atoms and swaps follow.
proof fn lemma_swap_made_stays<F: Fn(Op, Scalar, Scalar, Scalar) -> Scalar>(
    ar: F,
    atoms: Atom,
    new_atoms: Atom,
    topo: CommTopology,
    new: CommTopology,
    domain: Domain,
    rank: i32,
    k: int,
    done: int,
)
    requires
        0 <= k < done,
        swap_made(ar, atoms, topo, domain, rank, k),
        swaps_ready(topo.swap_data@, done, atoms.records().len() as int, rank),
        atoms.records().len() <= new_atoms.records().len(),
        new_atoms.records().take(atoms.records().len() as int) == atoms.records(),
        new.maxneed == topo.maxneed,
        new.swap_directions == topo.swap_directions,
        new.periodic_swap == topo.periodic_swap,
        done <= new.swap_data@.len(),
        forall|j: int| 0 <= j < done ==> #[trigger] new.swap_data@[j] == topo.swap_data@[j],
    ensures
        swap_made(ar, new_atoms, new, domain, rank, k),
{
    let n: int = atoms.records().len() as int;
    let side: int = k % 2;
    assert(new.swap_data@[k] == topo.swap_data@[k]);
    assert(new.swap_data@[k - side] == topo.swap_data@[k - side]);
    assert(swap_ready(topo.swap_data@[k - side], n, rank));
    assert forall|i: int| 0 <= i < n implies #[trigger] new_atoms.record(i) == atoms.record(i) by {
        assert(new_atoms.records().take(n)[i] == new_atoms.records()[i]);
        assert(atoms.records()[i] == atoms.record(i));
    }
    lemma_skin_alike(
        ar,
        new_atoms,
        atoms,
        domain,
        axis_of(topo.maxneed, k),
        side,
        domain.ghost_cutoff,
        topo.swap_data@[k - side].recv_start as int,
    );
}

proof fn lemma_rows_imaged_stay(
    rows: Seq<Seq<Scalar>>,
    new_rows: Seq<Seq<Scalar>>,
    swaps: Seq<SwapData>,
    new_swaps: Seq<SwapData>,
    k: int,
    rank: i32,
)
    requires
        rows_imaged(rows, swaps, k),
        swaps_ready(swaps, k, rows.len() as int, rank),
        rows.len() <= new_rows.len(),
        new_rows.take(rows.len() as int) == rows,
        k <= new_swaps.len(),
        forall|j: int|
            0 <= j < k ==> #[trigger] new_swaps[j] == swaps[j] && swaps[j].recv_count
                <= swaps[j].send_indices@.len(),
    ensures
        rows_imaged(new_rows, new_swaps, k),
{
    assert forall|m: int, j: int|
        0 <= m < k && 0 <= j < new_swaps[m].recv_count implies #[trigger] row_imaged(
        new_rows,
        new_swaps[m],
        j,
    ) by {
        assert(new_swaps[m] == swaps[m]);
        assert(swap_ready(swaps[m], rows.len() as int, rank));
        assert(row_imaged(rows, swaps[m], j));
        let g: int = swaps[m].recv_start + j;
        let o: int = swaps[m].send_indices@[j] as int;
        assert(o < swaps[m].recv_start);
        assert(new_rows.take(rows.len() as int)[g] == new_rows[g]);
        assert(new_rows.take(rows.len() as int)[o] == new_rows[o]);
    }
}

/// What one step of a rebuild does where every neighbour is the process itself:
/// the swap is recorded, its ghosts are appended, and all else stays.
pub open spec fn stepped_alone<D: AtomData, F: Fn(Op, Scalar, Scalar, Scalar) -> Scalar>(
    ar: F,
    domain: Domain,
    rank: i32,
    atoms: Atom,
    registry: AtomDataRegistry<D>,
    topo: CommTopology,
    pass: BorderPass,
    new_atoms: Atom,
    new_registry: AtomDataRegistry<D>,
    new: CommTopology,
    new_pass: BorderPass,
) -> bool {
    let n: int = atoms.records().len() as int;
    let entry: SwapData = new.swap_data@[pass.swap_idx as int];
    &&& recorded(ar, atoms, domain, pass, topo, new, entry.recv_count as int)
    &&& entry.recv_count == if entry.to_proc == rank {
        entry.send_indices@.len() as int
    } else {
        0
    }
    &&& stays_here(entry, rank)
    &&& new_atoms.records().len() == n + entry.recv_count
    &&& new_atoms.records().take(n) == atoms.records()
    &&& new_atoms.nlocal == atoms.nlocal
    &&& new_atoms.natoms == atoms.natoms
    &&& new_atoms.ntypes == atoms.ntypes
    &&& new_atoms.dt == atoms.dt
    &&& forall|j: int|
        0 <= j < entry.recv_count ==> mirrors(
            ar,
            #[trigger] new_atoms.records()[n + j],
            atoms.record(entry.send_indices@[j] as int),
            entry.send_indices@[j] as int,
            entry.periodic_offset,
        )
    &&& new_registry.same_stores(&registry)
    &&& forall|s: int|
        0 <= s < registry.stores@.len() ==> (#[trigger] new_registry.stores@[s]).data.rows().take(n)
            == registry.stores@[s].data.rows()
    &&& forall|s: int, j: int|
        0 <= s < registry.stores@.len() && 0 <= j < entry.recv_count ==> (
        #[trigger] new_registry.stores@[s].data.rows()[n + j])
            == registry.stores@[s].data.rows()[entry.send_indices@[j] as int]
    &&& advanced(pass, new_pass, new_atoms.records().len() as int)
}

/// Takes one step of a rebuild where every neighbour is the process itself.
fn step_alone<D: AtomData, F: Fn(Op, Scalar, Scalar, Scalar) -> Scalar>(
    atoms: &mut Atom,
    registry: &mut AtomDataRegistry<D>,
    topo: &mut CommTopology,
    domain: &Domain,
    pass: &mut BorderPass,
    send_buff: &mut Vec<Scalar>,
    rank: i32,
    ar: &F,
)
    requires
        is_arithmetic(*ar),
        between_steps(*old(pass), *old(atoms), *old(registry), *old(topo), rank),
        old(pass).dim < 3,
        old(atoms).records().len() <= i32::MAX,
        alone(*old(topo), rank),
    ensures
        between_steps(*final(pass), *final(atoms), *final(registry), *final(topo), rank),
        stepped_alone(
            *ar,
            *domain,
            rank,
            *old(atoms),
            *old(registry),
            *old(topo),
            *old(pass),
            *final(atoms),
            *final(registry),
            *final(topo),
            *final(pass),
        ),
{
    proof {
        let side: int = pass.swap as int;
        let dim: int = pass.dim as int;
        assert(topo.swap_directions[0][dim] == rank <==> topo.swap_directions[1][dim] == rank);
        assert(topo.swap_directions[side][dim] == rank || topo.swap_directions[side][dim] == -1);
        assert(topo.swap_directions[1 - side][dim] == rank || topo.swap_directions[1 - side][dim]
            == -1);
    }
    match border_step(atoms, registry, topo, domain, pass, send_buff, rank, ar) {
        BorderStep::Done => {},
        BorderStep::Exchange { transfer: _, swap } => {
            let nothing: Vec<Scalar> = Vec::new();
            border_receive(
                atoms,
                registry,
                topo,
                pass,
                swap,
                nothing.as_slice(),
                0,
                rank,
                ar,
            );
            proof {
                assert forall|s: int| 0 <= s < old(registry).stores@.len() implies (
                #[trigger] registry.stores@[s]).data.rows().take(
                    old(atoms).records().len() as int,
                ) == old(registry).stores@[s].data.rows() by {
                    assert(registry.stores@[s].data.rows().take(old(atoms).records().len() as int)
                        =~= old(registry).stores@[s].data.rows());
                }
            }
        },
    }
}

/// What holds between two steps of a rebuild where every neighbour is the process
/// itself.
pub open spec fn rebuilt_upto<D: AtomData, F: Fn(Op, Scalar, Scalar, Scalar) -> Scalar>(
    ar: F,
    domain: Domain,
    rank: i32,
    first: Atom,
    first_registry: AtomDataRegistry<D>,
    atoms: Atom,
    registry: AtomDataRegistry<D>,
    topo: CommTopology,
    done: int,
) -> bool {
    let local: int = local_atoms(first) as int;
    let n: int = atoms.records().len() as int;
    let swaps: Seq<SwapData> = topo.swap_data@;
    &&& local <= n
    &&& atoms.nlocal == local
    &&& atoms.natoms == first.natoms
    &&& atoms.ntypes == first.ntypes
    &&& atoms.dt == first.dt
    &&& atoms.records().take(local) == first.records().take(local)
    &&& registry.same_stores(&first_registry)
    &&& forall|s: int|
        0 <= s < first_registry.stores@.len() ==> (#[trigger] registry.stores@[s]).data.rows().take(
            local,
        ) == first_registry.stores@[s].data.rows().take(local)
    &&& forall|k: int| 0 <= k < done ==> #[trigger] swap_made(ar, atoms, topo, domain, rank, k)
    &&& forall|k: int| 0 <= k < done ==> stays_here(#[trigger] swaps[k], rank)
    &&& images(ar, atoms.records(), swaps, done)
    &&& forall|s: int|
        0 <= s < registry.stores@.len() ==> rows_imaged(
            (#[trigger] registry.stores@[s]).data.rows(),
            swaps,
            done,
        )
}

/// The step looks at the atoms that were there before the hop.
pub open spec fn scans_hop(atoms: Atom, topo: CommTopology, pass: BorderPass) -> bool {
    pass.dim < 3 ==> pass.scan_end == if pass.swap == 0 {
        atoms.records().len() as int
    } else {
        topo.swap_data@[pass.swap_idx - 1].recv_start as int
    }
}

proof fn lemma_step_keeps<D: AtomData, F: Fn(Op, Scalar, Scalar, Scalar) -> Scalar>(
    ar: F,
    domain: Domain,
    rank: i32,
    first: Atom,
    first_registry: AtomDataRegistry<D>,
    atoms: Atom,
    registry: AtomDataRegistry<D>,
    topo: CommTopology,
    pass: BorderPass,
    new_atoms: Atom,
    new_registry: AtomDataRegistry<D>,
    new: CommTopology,
    new_pass: BorderPass,
)
    requires
        between_steps(pass, atoms, registry, topo, rank),
        between_steps(new_pass, new_atoms, new_registry, new, rank),
        pass.dim < 3,
        rebuilt_upto(
            ar,
            domain,
            rank,
            first,
            first_registry,
            atoms,
            registry,
            topo,
            pass.swap_idx as int,
        ),
        scans_hop(atoms, topo, pass),
        stepped_alone(
            ar,
            domain,
            rank,
            atoms,
            registry,
            topo,
            pass,
            new_atoms,
            new_registry,
            new,
            new_pass,
        ),
    ensures
        rebuilt_upto(
            ar,
            domain,
            rank,
            first,
            first_registry,
            new_atoms,
            new_registry,
            new,
            new_pass.swap_idx as int,
        ),
        scans_hop(new_atoms, new, new_pass),
{
    let n: int = atoms.records().len() as int;
    let k: int = pass.swap_idx as int;
    let local: int = local_atoms(first) as int;
    let records: Seq<Record> = new_atoms.records();
    let entry: SwapData = new.swap_data@[k];
    assert(records.take(local) =~= atoms.records().take(local));
    lemma_images_stay(ar, atoms.records(), records, topo.swap_data@, new.swap_data@, k, rank);
    atoms_near_a_face_are_sent(
        ar,
        atoms,
        domain,
        pass.dim as int,
        pass.swap as int,
        domain.ghost_cutoff,
        pass.scan_end as int,
    );
    assert forall|m: int, j: int|
        0 <= m < k + 1 && 0 <= j < new.swap_data@[m].recv_count implies #[trigger] image_at(
        ar,
        records,
        new.swap_data@[m],
        j,
    ) by {
        if m == k {
            let o: int = entry.send_indices@[j] as int;
            assert(mirrors(ar, records[n + j], atoms.record(o), o, entry.periodic_offset));
            assert(o < n);
            assert(records.take(n)[o] == atoms.records()[o]);
        }
    }
    lemma_scanned_next(topo.maxneed, pass, new_pass);
    assert forall|m: int| 0 <= m < k + 1 implies #[trigger] swap_made(
        ar,
        new_atoms,
        new,
        domain,
        rank,
        m,
    ) by {
        if m < k {
            assert(swap_made(ar, atoms, topo, domain, rank, m));
            lemma_swap_made_stays(ar, atoms, new_atoms, topo, new, domain, rank, m, k);
        } else {
            swap_number_tells_axis(topo.maxneed, pass);
            assert forall|i: int| 0 <= i < n implies #[trigger] new_atoms.record(i)
                == atoms.record(i) by {
                assert(records.take(n)[i] == records[i]);
                assert(atoms.records()[i] == atoms.record(i));
            }
            lemma_skin_alike(
                ar,
                new_atoms,
                atoms,
                domain,
                pass.dim as int,
                pass.swap as int,
                domain.ghost_cutoff,
                pass.scan_end as int,
            );
        }
    }
    assert forall|s: int| 0 <= s < new_registry.stores@.len() implies rows_imaged(
        (#[trigger] new_registry.stores@[s]).data.rows(),
        new.swap_data@,
        k + 1,
    ) && new_registry.stores@[s].data.rows().take(local)
        == first_registry.stores@[s].data.rows().take(local) by {
        let rows: Seq<Seq<Scalar>> = new_registry.stores@[s].data.rows();
        let rows_before: Seq<Seq<Scalar>> = registry.stores@[s].data.rows();
        assert(rows_before.len() == n);
        assert(rows.take(local) =~= rows_before.take(local)) by {
            assert(rows.take(n).take(local) =~= rows.take(local));
        }
        assert forall|j: int| 0 <= j < k implies #[trigger] new.swap_data@[j] == topo.swap_data@[j]
            && topo.swap_data@[j].recv_count <= topo.swap_data@[j].send_indices@.len() by {
            assert(swap_made(ar, atoms, topo, domain, rank, j));
        }
        lemma_rows_imaged_stay(rows_before, rows, topo.swap_data@, new.swap_data@, k, rank);
        assert forall|m: int, j: int|
            0 <= m < k + 1 && 0 <= j < new.swap_data@[m].recv_count implies #[trigger] row_imaged(
            rows,
            new.swap_data@[m],
            j,
        ) by {
            if m == k {
                let o: int = entry.send_indices@[j] as int;
                assert(o < n);
                assert(rows[n + j] == rows_before[o]);
                assert(rows.take(n)[o] == rows[o]);
            }
        }
    }
}

/// Swaps of an earlier rebuild that are dropped change nothing.
proof fn lemma_rebuilt_alike<D: AtomData, F: Fn(Op, Scalar, Scalar, Scalar) -> Scalar>(
    ar: F,
    domain: Domain,
    rank: i32,
    first: Atom,
    first_registry: AtomDataRegistry<D>,
    atoms: Atom,
    registry: AtomDataRegistry<D>,
    topo: CommTopology,
    new: CommTopology,
)
    requires
        rebuilt_upto(
            ar,
            domain,
            rank,
            first,
            first_registry,
            atoms,
            registry,
            topo,
            new.swap_data@.len() as int,
        ),
        new.swap_data@.len() <= topo.swap_data@.len(),
        new.swap_data@ == topo.swap_data@.take(new.swap_data@.len() as int),
        new.maxneed == topo.maxneed,
        new.swap_directions == topo.swap_directions,
        new.periodic_swap == topo.periodic_swap,
    ensures
        rebuilt_upto(
            ar,
            domain,
            rank,
            first,
            first_registry,
            atoms,
            registry,
            new,
            new.swap_data@.len() as int,
        ),
{
    let all: int = new.swap_data@.len() as int;
    assert forall|k: int| 0 <= k < all implies #[trigger] swap_made(
        ar,
        atoms,
        new,
        domain,
        rank,
        k,
    ) by {
        assert(swap_made(ar, atoms, topo, domain, rank, k));
        assert(new.swap_data@[k] == topo.swap_data@[k]);
        assert(new.swap_data@[k - k % 2] == topo.swap_data@[k - k % 2]);
    }
    assert forall|m: int, j: int|
        0 <= m < all && 0 <= j < new.swap_data@[m].recv_count implies #[trigger] image_at(
        ar,
        atoms.records(),
        new.swap_data@[m],
        j,
    ) by {
        assert(image_at(ar, atoms.records(), topo.swap_data@[m], j));
    }
    assert forall|s: int| 0 <= s < registry.stores@.len() implies rows_imaged(
        (#[trigger] registry.stores@[s]).data.rows(),
        new.swap_data@,
        all,
    ) by {
        let rows: Seq<Seq<Scalar>> = registry.stores@[s].data.rows();
        assert forall|m: int, j: int|
            0 <= m < all && 0 <= j < new.swap_data@[m].recv_count implies #[trigger] row_imaged(
            rows,
            new.swap_data@[m],
            j,
        ) by {
            assert(row_imaged(rows, topo.swap_data@[m], j));
        }
    }
}

/// Rebuilds the ghosts of a process that has no neighbour but itself. Every
/// ghost is the image of an atom that came before it, extension data included,
/// and every atom near a face has its image. It fails where there are too many
/// atoms to be numbered.
pub fn borders_alone<D: AtomData, F: Fn(Op, Scalar, Scalar, Scalar) -> Scalar>(
    atoms: &mut Atom,
    registry: &mut AtomDataRegistry<D>,
    topo: &mut CommTopology,
    domain: &Domain,
    decomp: [i32; 3],
    send_buff: &mut Vec<Scalar>,
    rank: i32,
    ar: &F,
) -> (r: bool)
    requires
        is_arithmetic(*ar),
        old(atoms).wf(),
        old(registry).wf(),
        old(atoms).nlocal <= old(atoms).records().len() <= u32::MAX,
        old(registry).parallel_to(old(atoms).records().len() as int),
        self_paired(*old(topo), rank),
        alone(*old(topo), rank),
    ensures
        !r ==> final(atoms).records().len() > i32::MAX || swaps_before(final(topo).maxneed, 3)
            > usize::MAX,
        final(atoms).wf(),
        final(registry).wf(),
        final(registry).parallel_to(final(atoms).records().len() as int),
        hops_set(*ar, old(topo).maxneed, final(topo).maxneed, decomp, *domain),
        final(topo).swap_directions == old(topo).swap_directions,
        final(topo).periodic_swap == old(topo).periodic_swap,
        rebuilt_upto(
            *ar,
            *domain,
            rank,
            *old(atoms),
            *old(registry),
            *final(atoms),
            *final(registry),
            *final(topo),
            if r {
                final(topo).swap_data@.len() as int
            } else {
                0
            },
        ),
        r ==> {
            let n = final(atoms).records().len() as int;
            let swaps = final(topo).swap_data@;
            &&& final(atoms).nlocal + final(atoms).nghost == n
            &&& swaps.len() == swaps_before(final(topo).maxneed, 3)
            &&& swaps_ready(swaps, swaps.len() as int, n, rank)
            &&& swaps_contiguous(swaps, swaps.len() as int, final(atoms).nlocal as int, n)
        },
{
    let started: Option<BorderPass> = start_borders(atoms, registry, topo, domain, decomp, rank, ar);
    proof {
        let local: int = local_atoms(*old(atoms)) as int;
        assert(atoms.records().take(local) =~= old(atoms).records().take(local));
        assert forall|s: int| 0 <= s < registry.stores@.len() implies (
        #[trigger] registry.stores@[s]).data.rows().take(local)
            == old(registry).stores@[s].data.rows().take(local) by {
            assert(registry.stores@[s].data.rows().take(local)
                =~= old(registry).stores@[s].data.rows().take(local));
        }
    }
    let mut pass: BorderPass = match started {
        Some(pass) => pass,
        None => return false,
    };
    proof {
        if pass.dim < 3 {
            swap_number_tells_axis(topo.maxneed, pass);
        }
    }
    while !pass.is_done()
        invariant
            is_arithmetic(*ar),
            between_steps(pass, *atoms, *registry, *topo, rank),
            alone(*topo, rank),
            rebuilt_upto(
                *ar,
                *domain,
                rank,
                *old(atoms),
                *old(registry),
                *atoms,
                *registry,
                *topo,
                pass.swap_idx as int,
            ),
            scans_hop(*atoms, *topo, pass),
            hops_set(*ar, old(topo).maxneed, topo.maxneed, decomp, *domain),
            topo.swap_directions == old(topo).swap_directions,
            topo.periodic_swap == old(topo).periodic_swap,
        decreases swaps_before(topo.maxneed, 3) - pass.swap_idx,
    {
        if atoms.len() > i32::MAX as usize {
            return false;
        }
        let ghost atoms_before: Atom = *atoms;
        let ghost registry_before: AtomDataRegistry<D> = *registry;
        let ghost topo_before: CommTopology = *topo;
        let ghost pass_before: BorderPass = pass;
        proof {
            lemma_more_swaps(topo.maxneed, pass);
        }
        step_alone(atoms, registry, topo, domain, &mut pass, send_buff, rank, ar);
        proof {
            lemma_step_keeps(
                *ar,
                *domain,
                rank,
                *old(atoms),
                *old(registry),
                atoms_before,
                registry_before,
                topo_before,
                pass_before,
                *atoms,
                *registry,
                *topo,
                pass,
            );
        }
    }
    let ghost done: CommTopology = *topo;
    finish_borders(atoms, registry, topo, &pass, rank);
    proof {
        lemma_rebuilt_alike(
            *ar,
            *domain,
            rank,
            *old(atoms),
            *old(registry),
            *atoms,
            *registry,
            done,
            *topo,
        );
    }
    true
}

/// A ghost of a rebuild is a full image of the atom that it stands for, extension
/// data included. It lies one box length away along the axis of its swap, above
/// for an atom near the lower face and below for one near the upper face, and
/// nothing along the other axes, where the arithmetic takes once and minus once
/// the length for what they are.
pub proof fn ghosts_are_full_images<D: AtomData, F: Fn(Op, Scalar, Scalar, Scalar) -> Scalar>(
    ar: F,
    domain: Domain,
    rank: i32,
    first: Atom,
    first_registry: AtomDataRegistry<D>,
    atoms: Atom,
    registry: AtomDataRegistry<D>,
    topo: CommTopology,
    k: int,
    j: int,
)
    requires
        rebuilt_upto(
            ar,
            domain,
            rank,
            first,
            first_registry,
            atoms,
            registry,
            topo,
            topo.swap_data@.len() as int,
        ),
        0 <= k < topo.swap_data@.len(),
        0 <= j < topo.swap_data@[k].recv_count,
        ({
            let dim = axis_of(topo.maxneed, k);
            let size = domain.size[dim];
            &&& topo.periodic_swap[0][dim] == Scalar::one()
            &&& topo.periodic_swap[1][dim] == Scalar::minus_one()
            &&& product(ar, Scalar::one(), size) == size
            &&& product(ar, Scalar::minus_one(), size) == size.negated()
        }),
    ensures
        ({
            let swap = topo.swap_data@[k];
            let dim = axis_of(topo.maxneed, k);
            let o = swap.send_indices@[j] as int;
            &&& 0 <= j < swap.send_indices@.len()
            &&& mirrors(
                ar,
                atoms.records()[swap.recv_start + j],
                atoms.records()[o],
                o,
                swap.periodic_offset,
            )
            &&& forall|s: int|
                0 <= s < registry.stores@.len() ==> (
                #[trigger] registry.stores@[s]).data.rows()[swap.recv_start + j]
                    == registry.stores@[s].data.rows()[o]
            &&& forall|d: int|
                0 <= d < 3 ==> #[trigger] swap.periodic_offset[d] == if d != dim {
                    Scalar::zero()
                } else if k % 2 == 0 {
                    domain.size[dim]
                } else {
                    domain.size[dim].negated()
                }
        }),
{
    let swap: SwapData = topo.swap_data@[k];
    assert(swap_made(ar, atoms, topo, domain, rank, k));
    assert(image_at(ar, atoms.records(), swap, j));
    assert forall|s: int| 0 <= s < registry.stores@.len() implies (
    #[trigger] registry.stores@[s]).data.rows()[swap.recv_start + j]
        == registry.stores@[s].data.rows()[swap.send_indices@[j] as int] by {
        assert(row_imaged(registry.stores@[s].data.rows(), swap, j));
    }
}

/// The directions of a hop take turns.
proof fn lemma_scanned_next(maxneed: [i32; 3], pass: BorderPass, new: BorderPass)
    requires
        pass.wf(maxneed),
        pass.dim < 3,
        new.wf(maxneed),
        new.swap_idx == pass.swap_idx + 1,
    ensures
        new.dim < 3 ==> new.swap == 1 - pass.swap,
{
    swap_number_tells_axis(maxneed, pass);
    if new.dim < 3 {
        swap_number_tells_axis(maxneed, new);
    }
}

/// Before the last axis is done there are swaps left.
proof fn lemma_more_swaps(maxneed: [i32; 3], pass: BorderPass)
    requires
        pass.wf(maxneed),
        pass.dim < 3,
    ensures
        pass.swap_idx < swaps_before(maxneed, 3),
{
    swaps_are_numbered_once(maxneed, pass, pass);
}

/// The process sends the swap to itself.
pub open spec fn to_itself(swap: SwapData, rank: i32) -> bool {
    swap.to_proc == rank && swap.from_proc == rank
}

/// The process sends the swap to itself, or nowhere.
pub open spec fn stays_here(swap: SwapData, rank: i32) -> bool {
    to_itself(swap, rank) || swap.to_proc == -1 && swap.from_proc == -1
}

/// Atom `i` is a ghost of one of the first `k` swaps that the process sends to
/// itself.
pub open spec fn own_ghost(swaps: Seq<SwapData>, k: int, rank: i32, i: int) -> bool {
    exists|m: int|
        0 <= m < k && to_itself(#[trigger] swaps[m], rank) && swaps[m].recv_start <= i
            < swaps[m].recv_start + swaps[m].recv_count
}

/// Ghost `j` of the swap has followed its owner: it stands where the owner now
/// stands, moved by the offset of the swap, and has the owner's velocity.
pub open spec fn followed<F: Fn(Op, Scalar, Scalar, Scalar) -> Scalar>(
    ar: F,
    atoms: Atom,
    new: Atom,
    swap: SwapData,
    j: int,
) -> bool {
    let was: Record = atoms.record(swap.recv_start + j);
    let is: Record = new.record(swap.recv_start + j);
    let owner: Record = new.record(swap.send_indices@[j] as int);
    &&& is == Record { pos: is.pos, vel: is.vel, ..was }
    &&& forall|d: int|
        0 <= d < 3 ==> #[trigger] is.pos[d] == sum(ar, owner.pos[d], swap.periodic_offset[d])
    &&& forall|d: int| 0 <= d < 3 ==> #[trigger] is.vel[d] == owner.vel[d]
}

/// Ghost `j` of the swap has taken over what its owner now forwards of store `s`.
pub open spec fn row_followed<D: AtomData>(
    registry: AtomDataRegistry<D>,
    new: AtomDataRegistry<D>,
    s: int,
    swap: SwapData,
    j: int,
) -> bool {
    let d: D = registry.stores@[s].data;
    new.stores@[s].data.rows()[swap.recv_start + j] == D::with_forward(
        d.shape(),
        d.rows()[swap.recv_start + j],
        D::forward_part(
            d.shape(),
            new.stores@[s].data.rows()[swap.send_indices@[j] as int],
        ),
    )
}

/// The ghosts of the first `k` swaps have followed their owners, and nothing
/// else has changed.
pub open spec fn all_followed<D: AtomData, F: Fn(Op, Scalar, Scalar, Scalar) -> Scalar>(
    ar: F,
    swaps: Seq<SwapData>,
    k: int,
    rank: i32,
    atoms: Atom,
    registry: AtomDataRegistry<D>,
    new: Atom,
    new_registry: AtomDataRegistry<D>,
) -> bool {
    let extra: nat = forward_upto(registry.stores@, registry.stores@.len() as int);
    &&& new.same_header(&atoms)
    &&& new_registry.same_stores(&registry)
    &&& new.records().len() == atoms.records().len()
    &&& forall|i: int|
        0 <= i < atoms.records().len() && !own_ghost(swaps, k, rank, i) ==> #[trigger] new.record(i)
            == atoms.record(i)
    &&& forall|m: int, j: int|
        0 <= m < k && to_itself(swaps[m], rank) && 0 <= j < swaps[m].recv_count
            ==> #[trigger] followed(ar, atoms, new, swaps[m], j)
    &&& forall|s: int, i: int|
        0 <= s < registry.stores@.len() && 0 <= i < atoms.records().len() && (extra == 0
            || !own_ghost(swaps, k, rank, i)) ==> #[trigger] new_registry.stores@[s].data.rows()[i]
            == registry.stores@[s].data.rows()[i]
    &&& forall|s: int, m: int, j: int|
        0 <= s < registry.stores@.len() && extra > 0 && 0 <= m < k && to_itself(swaps[m], rank) && 0
            <= j < swaps[m].recv_count ==> #[trigger] row_followed(
            registry,
            new_registry,
            s,
            swaps[m],
            j,
        )
}

/// One more swap is carried out; the ghosts of the earlier ones still follow.
proof fn lemma_one_more_followed<D: AtomData, F: Fn(Op, Scalar, Scalar, Scalar) -> Scalar>(
    ar: F,
    swaps: Seq<SwapData>,
    k: int,
    rank: i32,
    atoms: Atom,
    registry: AtomDataRegistry<D>,
    mid: Atom,
    mid_registry: AtomDataRegistry<D>,
    new: Atom,
    new_registry: AtomDataRegistry<D>,
)
    requires
        0 <= k < swaps.len(),
        swaps_ready(swaps, swaps.len() as int, atoms.records().len() as int, rank),
        all_followed(ar, swaps, k, rank, atoms, registry, mid, mid_registry),
        mid.wf(),
        mid_registry.wf(),
        mid_registry.parallel_to(mid.records().len() as int),
        registry.parallel_to(mid.records().len() as int),
        new_registry.parallel_to(mid.records().len() as int),
        to_itself(swaps[k], rank),
        forward_taken(
            mid,
            mid_registry,
            new,
            new_registry,
            swaps[k].recv_start as int,
            swaps[k].recv_count as int,
            joined(
                forward_parts(
                    ar,
                    mid,
                    mid_registry.stores@,
                    swaps[k].periodic_offset,
                    swaps[k].send_indices@,
                ),
            ),
        ),
    ensures
        all_followed(ar, swaps, k + 1, rank, atoms, registry, new, new_registry),
{
    let swap: SwapData = swaps[k];
    let n: int = atoms.records().len() as int;
    let all: int = registry.stores@.len() as int;
    let extra: nat = forward_upto(registry.stores@, all);
    let start: int = swap.recv_start as int;
    let count: int = swap.recv_count as int;
    let msg: Seq<Scalar> = joined(
        forward_parts(ar, mid, mid_registry.stores@, swap.periodic_offset, swap.send_indices@),
    );
    lemma_upto_alike(registry.stores@, mid_registry.stores@, all);
    assert(swap_ready(swap, n, rank));
    assert forall|i: int| start <= i < start + count implies !own_ghost(swaps, k, rank, i)
        && own_ghost(swaps, k + 1, rank, i) by {
        assert(to_itself(swaps[k], rank));
    }
    assert forall|i: int| own_ghost(swaps, k, rank, i) implies own_ghost(swaps, k + 1, rank, i) by {}
    assert forall|i: int|
        0 <= i < n && !own_ghost(swaps, k + 1, rank, i) implies #[trigger] new.record(i)
        == atoms.record(i) by {
        assert(!own_ghost(swaps, k, rank, i));
        assert(mid.record(i) == atoms.record(i));
    }
    assert forall|m: int, j: int|
        0 <= m < k + 1 && to_itself(swaps[m], rank) && 0 <= j < swaps[m].recv_count implies #[trigger] followed(
        ar,
        atoms,
        new,
        swaps[m],
        j,
    ) by {
        assert(swap_ready(swaps[m], n, rank));
        let g: int = swaps[m].recv_start + j;
        let o: int = swaps[m].send_indices@[j] as int;
        assert(o < swaps[m].recv_start);
        if m < k {
            assert(swaps[m].recv_start + swaps[m].recv_count <= swaps[k].recv_start);
            assert(followed(ar, atoms, mid, swaps[m], j));
            assert(new.record(g) == mid.record(g));
            assert(new.record(o) == mid.record(o));
        } else {
            assert(mid.record(g) == atoms.record(g));
            assert(new.record(o) == mid.record(o));
            assert(refreshed(
                mid.record(g),
                new.record(g),
                msg,
                j * (FORWARD_PACK_SIZE + extra),
            ));
            ghosts_follow_owners(
                ar,
                mid,
                mid_registry,
                swap.periodic_offset,
                swap.send_indices@,
                j,
                mid.record(g),
                new.record(g),
            );
        }
    }
    assert forall|s: int, i: int|
        0 <= s < all && 0 <= i < n && (extra == 0 || !own_ghost(swaps, k + 1, rank, i)) implies #[trigger] new_registry.stores@[s].data.rows()[i]
        == registry.stores@[s].data.rows()[i] by {
        assert(mid_registry.stores@[s].data.rows()[i] == registry.stores@[s].data.rows()[i]);
        assert(mid_registry.stores@[s].data.rows().len() == n);
    }
    assert forall|s: int, m: int, j: int|
        0 <= s < all && extra > 0 && 0 <= m < k + 1 && to_itself(swaps[m], rank) && 0 <= j
            < swaps[m].recv_count implies #[trigger] row_followed(
        registry,
        new_registry,
        s,
        swaps[m],
        j,
    ) by {
        assert(swap_ready(swaps[m], n, rank));
        let g: int = swaps[m].recv_start + j;
        let o: int = swaps[m].send_indices@[j] as int;
        assert(o < swaps[m].recv_start);
        assert(mid_registry.stores@[s].data.rows().len() == n);
        assert(mid_registry.stores@[s].data.shape() == registry.stores@[s].data.shape());
        let rows: Seq<Seq<Scalar>> = new_registry.stores@[s].data.rows();
        assert(rows == refreshed_rows(mid_registry.stores@, msg, start, count, s));
        if m < k {
            assert(swaps[m].recv_start + swaps[m].recv_count <= swaps[k].recv_start);
            assert(row_followed(registry, mid_registry, s, swaps[m], j));
            assert(rows[g] == mid_registry.stores@[s].data.rows()[g]);
            assert(rows[o] == mid_registry.stores@[s].data.rows()[o]);
        } else {
            assert(mid_registry.stores@[s].data.rows()[g] == registry.stores@[s].data.rows()[g]);
            assert(rows[o] == mid_registry.stores@[s].data.rows()[o]);
            lemma_words_arrive(
                ar,
                mid,
                mid_registry,
                swap.periodic_offset,
                swap.send_indices@,
                j,
                s,
            );
        }
    }
}

/// Carries out a whole forward pass of a process without neighbours. Afterwards
/// every ghost is where its owner is, moved by the offset of its swap, whether
/// that owner is an atom of the process or itself a ghost.
pub fn forward_alone<D: AtomData, F: Fn(Op, Scalar, Scalar, Scalar) -> Scalar>(
    swaps: &Vec<SwapData>,
    atoms: &mut Atom,
    registry: &mut AtomDataRegistry<D>,
    rank: i32,
    extra: usize,
    ar: &F,
)
    requires
        is_arithmetic(*ar),
        old(atoms).wf(),
        old(registry).wf(),
        old(registry).parallel_to(old(atoms).records().len() as int),
        extra == forward_upto(old(registry).stores@, old(registry).stores@.len() as int),
        swaps_ready(swaps@, swaps@.len() as int, old(atoms).records().len() as int, rank),
        forall|k: int|
            0 <= k < swaps@.len() ==> stays_here(#[trigger] swaps@[k], rank)
                && swaps@[k].recv_count * (FORWARD_PACK_SIZE + extra) <= usize::MAX,
    ensures
        final(atoms).wf(),
        final(registry).wf(),
        final(registry).parallel_to(final(atoms).records().len() as int),
        all_followed(
            *ar,
            swaps@,
            swaps@.len() as int,
            rank,
            *old(atoms),
            *old(registry),
            *final(atoms),
            *final(registry),
        ),
{
    let ghost n: int = atoms.records().len() as int;
    let mut k: usize = 0;
    while k < swaps.len()
        invariant
            is_arithmetic(*ar),
            k <= swaps@.len(),
            n == old(atoms).records().len(),
            atoms.wf(),
            registry.wf(),
            atoms.records().len() == n,
            registry.parallel_to(n),
            old(registry).parallel_to(n),
            extra == forward_upto(old(registry).stores@, old(registry).stores@.len() as int),
            swaps_ready(swaps@, swaps@.len() as int, n, rank),
            forall|k: int|
                0 <= k < swaps@.len() ==> stays_here(#[trigger] swaps@[k], rank)
                    && swaps@[k].recv_count * (FORWARD_PACK_SIZE + extra) <= usize::MAX,
            all_followed(
                *ar,
                swaps@,
                k as int,
                rank,
                *old(atoms),
                *old(registry),
                *atoms,
                *registry,
            ),
        decreases swaps.len() - k,
    {
        let ghost mid: Atom = *atoms;
        let ghost mid_registry: AtomDataRegistry<D> = *registry;
        proof {
            assert(stays_here(swaps@[k as int], rank));
            assert(swap_ready(swaps@[k as int], n, rank));
            lemma_upto_alike(
                old(registry).stores@,
                registry.stores@,
                registry.stores@.len() as int,
            );
        }
        let _sent: Option<Message> = forward_prepare_swap(&swaps[k], atoms, registry, rank, extra, ar);
        proof {
            if to_itself(swaps@[k as int], rank) {
                lemma_one_more_followed(
                    *ar,
                    swaps@,
                    k as int,
                    rank,
                    *old(atoms),
                    *old(registry),
                    mid,
                    mid_registry,
                    *atoms,
                    *registry,
                );
            } else {
                assert forall|i: int| own_ghost(swaps@, k + 1, rank, i) implies own_ghost(
                    swaps@,
                    k as int,
                    rank,
                    i,
                ) by {}
            }
        }
        k = k + 1;
    }
}

/// Ghosts that were just rebuilt are up to date: a forward pass before any atom
/// has moved changes no atom.
pub proof fn fresh_ghosts_stay<D: AtomData, F: Fn(Op, Scalar, Scalar, Scalar) -> Scalar>(
    ar: F,
    swaps: Seq<SwapData>,
    rank: i32,
    atoms: Atom,
    registry: AtomDataRegistry<D>,
    new: Atom,
    new_registry: AtomDataRegistry<D>,
    i: int,
)
    requires
        swaps_ready(swaps, swaps.len() as int, atoms.records().len() as int, rank),
        images(ar, atoms.records(), swaps, swaps.len() as int),
        all_followed(
            ar,
            swaps,
            swaps.len() as int,
            rank,
            atoms,
            registry,
            new,
            new_registry,
        ),
        0 <= i < atoms.records().len(),
    ensures
        new.record(i) == atoms.record(i),
    decreases i,
{
    if own_ghost(swaps, swaps.len() as int, rank, i) {
        let m: int = choose|m: int|
            0 <= m < swaps.len() && to_itself(#[trigger] swaps[m], rank) && swaps[m].recv_start <= i
                < swaps[m].recv_start + swaps[m].recv_count;
        let j: int = i - swaps[m].recv_start;
        let o: int = swaps[m].send_indices@[j] as int;
        assert(swap_ready(swaps[m], atoms.records().len() as int, rank));
        assert(o < swaps[m].recv_start);
        fresh_ghosts_stay(ar, swaps, rank, atoms, registry, new, new_registry, o);
        assert(image_at(ar, atoms.records(), swaps[m], j));
        assert(followed(ar, atoms, new, swaps[m], j));
        assert(new.record(i).pos =~= atoms.record(i).pos);
        assert(new.record(i).vel =~= atoms.record(i).vel);
    }
}

/// The forces after the first `j` ghosts of the swap gave theirs to their owners.
pub open spec fn forces_returned<F: Fn(Op, Scalar, Scalar, Scalar) -> Scalar>(
    ar: F,
    force: Seq<Vec3>,
    swap: SwapData,
    j: int,
) -> Seq<Vec3>
    decreases j,
{
    if j <= 0 {
        force
    } else {
        let f: Seq<Vec3> = forces_returned(ar, force, swap, j - 1);
        let o: int = swap.send_indices@[j - 1] as int;
        let given: Vec3 = force[swap.recv_start + j - 1];
        f.update(
            o,
            [sum(ar, f[o][0], given[0]), sum(ar, f[o][1], given[1]), sum(ar, f[o][2], given[2])],
        )
    }
}

/// The rows of a store after the first `j` ghosts of the swap gave theirs to
/// their owners.
pub open spec fn rows_returned<D: AtomData, F: Fn(Op, Scalar, Scalar, Scalar) -> Scalar>(
    ar: F,
    store: D,
    rows: Seq<Seq<Scalar>>,
    swap: SwapData,
    j: int,
) -> Seq<Seq<Scalar>>
    decreases j,
{
    if j <= 0 {
        rows
    } else {
        let r: Seq<Seq<Scalar>> = rows_returned(ar, store, rows, swap, j - 1);
        let o: int = swap.send_indices@[j - 1] as int;
        let given: Seq<Scalar> = D::reverse_part(store.shape(), rows[swap.recv_start + j - 1]);
        r.update(o, D::with_reverse(store.shape(), r[o], given, summing(ar)))
    }
}

/// The swap that a reverse pass over `len` swaps visits as number `t`: pairs of
/// swaps from the last pair back, each pair in its own order.
pub open spec fn visited(len: int, t: int) -> int {
    let end: int = len - 2 * (t / 2);
    if end >= 2 {
        end - 2 + t % 2
    } else {
        0
    }
}

/// The forces after the first `t` swaps of a reverse pass.
pub open spec fn forces_back<F: Fn(Op, Scalar, Scalar, Scalar) -> Scalar>(
    ar: F,
    force: Seq<Vec3>,
    swaps: Seq<SwapData>,
    rank: i32,
    t: int,
) -> Seq<Vec3>
    decreases t,
{
    if t <= 0 {
        force
    } else {
        let f: Seq<Vec3> = forces_back(ar, force, swaps, rank, t - 1);
        let swap: SwapData = swaps[visited(swaps.len() as int, t - 1)];
        if to_itself(swap, rank) {
            forces_returned(ar, f, swap, swap.send_indices@.len() as int)
        } else {
            f
        }
    }
}

/// The rows of a store after the first `t` swaps of a reverse pass.
pub open spec fn rows_back<D: AtomData, F: Fn(Op, Scalar, Scalar, Scalar) -> Scalar>(
    ar: F,
    store: D,
    swaps: Seq<SwapData>,
    rank: i32,
    t: int,
) -> Seq<Seq<Scalar>>
    decreases t,
{
    if t <= 0 {
        store.rows()
    } else {
        let rows: Seq<Seq<Scalar>> = rows_back(ar, store, swaps, rank, t - 1);
        let swap: SwapData = swaps[visited(swaps.len() as int, t - 1)];
        if to_itself(swap, rank) {
            rows_returned(ar, store, rows, swap, swap.send_indices@.len() as int)
        } else {
            rows
        }
    }
}

proof fn lemma_forces_returned<D: AtomData, F: Fn(Op, Scalar, Scalar, Scalar) -> Scalar>(
    ar: F,
    atoms: Atom,
    registry: AtomDataRegistry<D>,
    swap: SwapData,
    j: int,
)
    requires
        atoms.wf(),
        registry.wf(),
        registry.parallel_to(atoms.records().len() as int),
        swap.recv_start + swap.recv_count <= atoms.records().len(),
        0 <= j <= swap.recv_count,
    ensures
        forces_after(
            ar,
            atoms.force@,
            swap.send_indices@,
            joined(
                reverse_parts(
                    atoms,
                    registry.stores@,
                    swap.recv_start as int,
                    swap.recv_count as int,
                ),
            ),
            3int + reverse_upto(registry.stores@, registry.stores@.len() as int),
            j,
        ) == forces_returned(ar, atoms.force@, swap, j),
    decreases j,
{
    if j > 0 {
        lemma_forces_returned(ar, atoms, registry, swap, j - 1);
        lemma_returns_arrive(
            atoms,
            registry,
            swap.recv_start as int,
            swap.recv_count as int,
            j - 1,
            0,
        );
    }
}

proof fn lemma_rows_returned<D: AtomData, F: Fn(Op, Scalar, Scalar, Scalar) -> Scalar>(
    ar: F,
    atoms: Atom,
    registry: AtomDataRegistry<D>,
    swap: SwapData,
    s: int,
    j: int,
)
    requires
        atoms.wf(),
        registry.wf(),
        registry.parallel_to(atoms.records().len() as int),
        swap.recv_start + swap.recv_count <= atoms.records().len(),
        0 <= j <= swap.recv_count,
        0 <= s < registry.stores@.len(),
    ensures
        rows_after(
            ar,
            registry.stores@,
            swap.send_indices@,
            joined(
                reverse_parts(
                    atoms,
                    registry.stores@,
                    swap.recv_start as int,
                    swap.recv_count as int,
                ),
            ),
            3int + reverse_upto(registry.stores@, registry.stores@.len() as int),
            s,
            j,
        ) == rows_returned(
            ar,
            registry.stores@[s].data,
            registry.stores@[s].data.rows(),
            swap,
            j,
        ),
    decreases j,
{
    if j > 0 {
        lemma_rows_returned(ar, atoms, registry, swap, s, j - 1);
        lemma_returns_arrive(
            atoms,
            registry,
            swap.recv_start as int,
            swap.recv_count as int,
            j - 1,
            s,
        );
    }
}

/// Rows are returned by the layout of the store alone.
proof fn lemma_returned_alike<D: AtomData, F: Fn(Op, Scalar, Scalar, Scalar) -> Scalar>(
    ar: F,
    a: D,
    b: D,
    rows: Seq<Seq<Scalar>>,
    swap: SwapData,
    j: int,
)
    requires
        a.shape() == b.shape(),
    ensures
        rows_returned(ar, a, rows, swap, j) == rows_returned(ar, b, rows, swap, j),
    decreases j,
{
    if j > 0 {
        lemma_returned_alike(ar, a, b, rows, swap, j - 1);
    }
}

/// Carries out a whole reverse pass of a process without neighbours: every ghost
/// gives its force, and what else it has gathered, to its owner. The swaps are
/// visited from the last pair back, so that a ghost of a ghost gives first.
pub fn reverse_alone<D: AtomData, F: Fn(Op, Scalar, Scalar, Scalar) -> Scalar>(
    swaps: &Vec<SwapData>,
    atoms: &mut Atom,
    registry: &mut AtomDataRegistry<D>,
    rank: i32,
    per_atom: usize,
    ar: &F,
)
    requires
        is_arithmetic(*ar),
        old(atoms).wf(),
        old(registry).wf(),
        old(registry).parallel_to(old(atoms).records().len() as int),
        per_atom == 3 + reverse_upto(old(registry).stores@, old(registry).stores@.len() as int),
        swaps_ready(swaps@, swaps@.len() as int, old(atoms).records().len() as int, rank),
        forall|k: int|
            0 <= k < swaps@.len() ==> stays_here(#[trigger] swaps@[k], rank)
                && swaps@[k].send_indices@.len() * per_atom <= usize::MAX,
    ensures
        final(atoms).wf(),
        final(registry).wf(),
        final(registry).parallel_to(final(atoms).records().len() as int),
        final(atoms).same_header(old(atoms)),
        final(registry).same_stores(old(registry)),
        final(atoms).records().len() == old(atoms).records().len(),
        final(atoms).force@ == forces_back(
            *ar,
            old(atoms).force@,
            swaps@,
            rank,
            swaps@.len() as int,
        ),
        forall|i: int|
            0 <= i < old(atoms).records().len() ==> #[trigger] final(atoms).record(i) == (Record {
                force: final(atoms).force@[i],
                ..old(atoms).record(i)
            }),
        forall|s: int|
            0 <= s < old(registry).stores@.len() ==> (
            #[trigger] final(registry).stores@[s]).data.rows() == if per_atom > 3 {
                rows_back(*ar, old(registry).stores@[s].data, swaps@, rank, swaps@.len() as int)
            } else {
                old(registry).stores@[s].data.rows()
            },
{
    let ghost n: int = atoms.records().len() as int;
    let ghost all: int = registry.stores@.len() as int;
    let mut t: usize = 0;
    while t < swaps.len()
        invariant
            is_arithmetic(*ar),
            t <= swaps@.len(),
            n == old(atoms).records().len(),
            all == old(registry).stores@.len(),
            atoms.wf(),
            registry.wf(),
            atoms.records().len() == n,
            registry.parallel_to(n),
            per_atom == 3 + reverse_upto(old(registry).stores@, all),
            swaps_ready(swaps@, swaps@.len() as int, n, rank),
            forall|k: int|
                0 <= k < swaps@.len() ==> stays_here(#[trigger] swaps@[k], rank)
                    && swaps@[k].send_indices@.len() * per_atom <= usize::MAX,
            atoms.same_header(old(atoms)),
            registry.same_stores(old(registry)),
            atoms.force@ == forces_back(*ar, old(atoms).force@, swaps@, rank, t as int),
            forall|i: int|
                0 <= i < n ==> #[trigger] atoms.record(i) == (Record {
                    force: atoms.force@[i],
                    ..old(atoms).record(i)
                }),
            forall|s: int|
                0 <= s < all ==> (#[trigger] registry.stores@[s]).data.rows() == if per_atom > 3 {
                    rows_back(*ar, old(registry).stores@[s].data, swaps@, rank, t as int)
                } else {
                    old(registry).stores@[s].data.rows()
                },
        decreases swaps.len() - t,
    {
        let end: usize = swaps.len() - 2 * (t / 2);
        let k: usize = if end >= 2 {
            end - 2 + t % 2
        } else {
            0
        };
        let ghost mid: Atom = *atoms;
        let ghost mid_registry: AtomDataRegistry<D> = *registry;
        proof {
            assert(k == visited(swaps@.len() as int, t as int));
            assert(stays_here(swaps@[k as int], rank));
            assert(swap_ready(swaps@[k as int], n, rank));
            lemma_upto_alike(old(registry).stores@, registry.stores@, all);
        }
        let _sent: Option<Message> = reverse_prepare_swap(
            &swaps[k],
            atoms,
            registry,
            rank,
            per_atom,
            ar,
        );
        proof {
            let swap: SwapData = swaps@[k as int];
            if to_itself(swap, rank) {
                let count: int = swap.send_indices@.len() as int;
                lemma_forces_returned(*ar, mid, mid_registry, swap, count);
                assert forall|s: int| 0 <= s < all implies (
                #[trigger] registry.stores@[s]).data.rows() == if per_atom > 3 {
                    rows_back(*ar, old(registry).stores@[s].data, swaps@, rank, t + 1)
                } else {
                    old(registry).stores@[s].data.rows()
                } by {
                    lemma_rows_returned(*ar, mid, mid_registry, swap, s, count);
                    let d: D = mid_registry.stores@[s].data;
                    lemma_returned_alike(
                        *ar,
                        d,
                        old(registry).stores@[s].data,
                        d.rows(),
                        swap,
                        count,
                    );
                }
            }
        }
        t = t + 1;
    }
}

} // verus!

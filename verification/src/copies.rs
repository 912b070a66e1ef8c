//! Ghosts as copies of their owners, atoms in the order of their cells, and atoms that
//! left their box, where no operation rounds.

use crate::atom::{Atom, Record};
use crate::atom_data::{AtomData, AtomDataRegistry};
use crate::bins::order_is_stable_permutation;
use crate::borders::{axis_of, mirrors};
use crate::comm::{CommTopology, SwapData};
use crate::domain::{BoundaryType, Domain};
use crate::exact::{
    exact_difference, exact_product, exact_quotient, exact_sum, lemma_constants, lemma_divided,
    lemma_mul_order, lemma_order, lemma_rounded, num,
};
use crate::exchange::{misplaced, misplaced_upto};
use crate::geometry::{lemma_drop_factor, lemma_grow_factor};
use crate::ghosts::{atoms_near_a_face_are_sent, in_skin};
use crate::margins::ghosts_lie_near_the_face;
use crate::neighbor::{
    cell_of, cells_of, crossing, interior_bins, lemma_cell_bound, sort_due, sort_order, Neighbor,
};
use crate::scalar::{quotient, Op, Scalar, Vec3};
use crate::serial::{followed, image_at, rebuilt_upto, swap_made, to_itself};
use vstd::prelude::*;

verus! {

/// A ghost is its owner in all but its place, which is the owner's moved by the offset,
/// and remembers who the owner is. Its inverse mass is the inverse of its mass.
pub proof fn ghosts_are_moved_copies<F: Fn(Op, Scalar, Scalar, Scalar) -> Scalar>(
    ar: F,
    rec: Record,
    owner: Record,
    i: int,
    by: Vec3,
    d: int,
)
    requires
        0 <= d < 3,
        mirrors(ar, rec, owner, i, by),
        exact_sum(ar, owner.pos[d], by[d]),
        exact_quotient(ar, Scalar::one(), owner.mass),
    ensures
        num(rec.pos[d]) == num(owner.pos[d]) + num(by[d]),
        rec == (Record {
            pos: rec.pos,
            inv_mass: rec.inv_mass,
            origin_index: i as i32,
            is_ghost: true,
            ..owner
        }),
        num(rec.inv_mass) * num(owner.mass) == 1real,
{
    lemma_constants();
    lemma_divided(1real, num(owner.mass));
    assert(rec.pos[d] == crate::scalar::sum(ar, owner.pos[d], by[d]));
}

/// A ghost that was refreshed stands where its owner now stands, moved by the offset of
/// its swap, and moves as the owner does.
pub proof fn refreshed_ghosts_stand_by_their_owners<F: Fn(Op, Scalar, Scalar, Scalar) -> Scalar>(
    ar: F,
    atoms: Atom,
    new: Atom,
    swap: SwapData,
    j: int,
    d: int,
)
    requires
        0 <= d < 3,
        followed(ar, atoms, new, swap, j),
        exact_sum(
            ar,
            new.record(swap.send_indices@[j] as int).pos[d],
            swap.periodic_offset[d],
        ),
    ensures
        ({
            let (now, owner) = (
                new.record(swap.recv_start + j),
                new.record(swap.send_indices@[j] as int),
            );
            let was = atoms.record(swap.recv_start + j);
            &&& num(now.pos[d]) == num(owner.pos[d]) + num(swap.periodic_offset[d])
            &&& now.vel[d] == owner.vel[d]
            &&& now == (Record { pos: now.pos, vel: now.vel, ..was })
        }),
{
    let now: Record = new.record(swap.recv_start + j);
    let owner: Record = new.record(swap.send_indices@[j] as int);
    assert(now.pos[d] == crate::scalar::sum(ar, owner.pos[d], swap.periodic_offset[d]));
}

/// A swap moves its ghosts along its own axis only, by the box as often as the topology
/// says.
pub proof fn offsets_are_whole_boxes<F: Fn(Op, Scalar, Scalar, Scalar) -> Scalar>(
    ar: F,
    atoms: Atom,
    topo: CommTopology,
    domain: Domain,
    rank: i32,
    k: int,
    d: int,
)
    requires
        0 <= d < 3,
        0 <= axis_of(topo.maxneed, k) < 3,
        swap_made(ar, atoms, topo, domain, rank, k),
        ({
            let dim = axis_of(topo.maxneed, k);
            exact_product(ar, topo.periodic_swap[k % 2][dim], domain.size[dim])
        }),
    ensures
        ({
            let dim = axis_of(topo.maxneed, k);
            let swap = topo.swap_data@[k];
            &&& d == dim ==> num(swap.periodic_offset[d]) == num(topo.periodic_swap[k % 2][d]) * num(
                domain.size[d],
            )
            &&& d != dim ==> num(swap.periodic_offset[d]) == 0real
            &&& swap.to_proc == topo.swap_directions[k % 2][dim]
            &&& swap.from_proc == topo.swap_directions[1 - k % 2][dim]
        }),
{
    lemma_constants();
}

/// Sorted atoms stand in the order of their cells, every atom once; atoms of one cell
/// keep their order.
pub proof fn sorted_atoms_stand_by_cell<F: Fn(Op, Scalar, Scalar, Scalar) -> Scalar>(
    ar: F,
    neighbor: Neighbor,
    atoms: Atom,
    a: int,
    b: int,
)
    requires
        neighbor.grid_valid(),
        atoms.nlocal <= atoms.pos@.len(),
        0 <= a < b < atoms.nlocal,
    ensures
        ({
            let perm = sort_order(ar, neighbor, atoms);
            let (p, q) = (perm[a] as int, perm[b] as int);
            let cell = |i: int| cell_of(ar, neighbor, atoms.pos@[i]);
            &&& perm.len() == atoms.nlocal
            &&& p < atoms.nlocal && q < atoms.nlocal && p != q
            &&& cell(p) < cell(q) || cell(p) == cell(q) && p < q
        }),
{
    let n: int = atoms.nlocal as int;
    let cells: Seq<u32> = cells_of(ar, neighbor, atoms.pos@, n);
    assert forall|i: int| 0 <= i < cells.len() implies #[trigger] cells[i]
        < neighbor.bin_total_cells && cells[i] == cell_of(ar, neighbor, atoms.pos@[i]) by {
        lemma_cell_bound(ar, neighbor, atoms.pos@[i]);
    }
    order_is_stable_permutation(cells, neighbor.bin_total_cells as int);
    let perm: Seq<usize> = sort_order(ar, neighbor, atoms);
    assert(cells[perm[a] as int] == cell_of(ar, neighbor, atoms.pos@[perm[a] as int]));
    assert(cells[perm[b] as int] == cell_of(ar, neighbor, atoms.pos@[perm[b] as int]));
}

/// A periodic sort comes at every so many steps: with the counter below the interval it
/// is due exactly at the last of them, and never without an interval.
pub proof fn sorts_are_evenly_spaced(neighbor: Neighbor)
    ensures
        neighbor.sort_every == 0 ==> !sort_due(neighbor),
        neighbor.sort_counter < neighbor.sort_every ==> (sort_due(neighbor)
            <==> neighbor.sort_every - neighbor.sort_counter == 1),
        neighbor.sort_counter < neighbor.sort_every && !sort_due(neighbor)
            ==> neighbor.sort_counter + 1 < neighbor.sort_every,
{
}

/// An atom is about to cross exactly if it is outside the box along a periodic axis.
pub proof fn crossing_atoms_are_outside(atoms: Atom, domain: Domain, i: int)
    requires
        forall|d: int|
            0 <= d < 3 ==> !(#[trigger] atoms.pos@[i][d]).nan() && !domain.boundaries_low[d].nan()
                && !domain.boundaries_high[d].nan(),
    ensures
        crossing(atoms, domain, i) <==> exists|d: int|
            0 <= d < 3 && domain.boundary_type[d] == BoundaryType::Periodic && !(num(
                domain.boundaries_low[d],
            ) <= num(#[trigger] atoms.pos@[i][d]) < num(domain.boundaries_high[d])),
{
    assert forall|d: int| 0 <= d < 3 implies ((#[trigger] atoms.pos@[i][d]).below(
        domain.boundaries_low[d],
    ) <==> num(atoms.pos@[i][d]) < num(domain.boundaries_low[d])) && (atoms.pos@[i][d].at_least(
        domain.boundaries_high[d],
    ) <==> num(atoms.pos@[i][d]) >= num(domain.boundaries_high[d])) by {
        lemma_order(atoms.pos@[i][d], domain.boundaries_low[d]);
        lemma_order(atoms.pos@[i][d], domain.boundaries_high[d]);
    }
}

/// An atom is misplaced exactly if it is outside this process's part along an axis that
/// is split; nothing is lost exactly if no atom is.
pub proof fn lost_atoms_are_outside(atoms: Atom, domain: Domain, decomp: [i32; 3], i: int, n: int)
    requires
        0 <= n,
        0 <= i < n,
        forall|d: int|
            0 <= d < 3 ==> !(#[trigger] atoms.pos@[i][d]).nan() && !domain.sub_domain_low[d].nan()
                && !domain.sub_domain_high[d].nan(),
    ensures
        misplaced(atoms, domain, decomp, i) <==> exists|d: int|
            0 <= d < 3 && decomp[d] != 1 && !(num(domain.sub_domain_low[d]) <= num(
                #[trigger] atoms.pos@[i][d],
            ) < num(domain.sub_domain_high[d])),
        misplaced_upto(atoms, domain, decomp, n) == 0 <==> forall|k: int|
            0 <= k < n ==> !#[trigger] misplaced(atoms, domain, decomp, k),
{
    assert forall|d: int| 0 <= d < 3 implies ((#[trigger] atoms.pos@[i][d]).below(
        domain.sub_domain_low[d],
    ) <==> num(atoms.pos@[i][d]) < num(domain.sub_domain_low[d])) && (atoms.pos@[i][d].at_least(
        domain.sub_domain_high[d],
    ) <==> num(atoms.pos@[i][d]) >= num(domain.sub_domain_high[d])) by {
        lemma_order(atoms.pos@[i][d], domain.sub_domain_low[d]);
        lemma_order(atoms.pos@[i][d], domain.sub_domain_high[d]);
    }
    lemma_none_lost(atoms, domain, decomp, n);
}

proof fn lemma_none_lost(atoms: Atom, domain: Domain, decomp: [i32; 3], n: int)
    requires
        0 <= n,
    ensures
        misplaced_upto(atoms, domain, decomp, n) == 0 <==> forall|k: int|
            0 <= k < n ==> !#[trigger] misplaced(atoms, domain, decomp, k),
    decreases n,
{
    if n > 0 {
        lemma_none_lost(atoms, domain, decomp, n - 1);
        if misplaced(atoms, domain, decomp, n - 1) {
            assert(!(forall|k: int| 0 <= k < n ==> !#[trigger] misplaced(atoms, domain, decomp, k)));
        }
    }
}

/// As many bins fill a length as fit into it: they are no smaller than asked for, where
/// the length is not itself smaller, and one more would be too many.
pub proof fn bins_fill_the_length<F: Fn(Op, Scalar, Scalar, Scalar) -> Scalar>(
    ar: F,
    length: Scalar,
    least: Scalar,
)
    requires
        num(least) > 0real,
        exact_quotient(ar, length, least),
        num(least) <= num(length) < i32::MAX as real * num(least),
    ensures
        ({
            let n = interior_bins(ar, length, least);
            &&& n >= 1
            &&& n as real * num(least) <= num(length)
            &&& (n as real + 1real) * num(least) > num(length)
        }),
{
    let q: Scalar = quotient(ar, length, least);
    lemma_rounded(q);
    let (l, b): (real, real) = (num(length), num(least));
    lemma_divided(l, b);
    let y: real = l / b;
    let f: int = q.floor();
    lemma_mul_order(b, y, 1real);
    lemma_mul_order(b, i32::MAX as real, 1real);
    if y < 1real {
        lemma_less(b, y, 1real);
        assert(b * 1real == b);
    }
    if y >= i32::MAX as real {
        lemma_grow_factor(b, i32::MAX as real, y);
    }
    assert((f + 1) as real == f as real + 1real);
    assert(f >= 1);
    assert(f < i32::MAX);
    let n: real = f as real;
    lemma_grow_factor(b, n, y);
    lemma_less(b, y, n + 1real);
    lemma_mul_order(b, n, 1real);
    lemma_mul_order(b, n + 1real, 1real);
}

proof fn lemma_less(b: real, x: real, y: real)
    requires
        b > 0real,
        x < y,
    ensures
        b * x < b * y,
{
    if b * x >= b * y {
        lemma_drop_factor(b, y, x);
    }
}

/// Every atom near a face has its image beyond it: the local atoms, and the ghosts that
/// came before along this axis or the axes before it, so that edges and corners have
/// theirs too. No other atom has one.
pub proof fn atoms_near_a_face_have_their_image<
    D: AtomData,
    F: Fn(Op, Scalar, Scalar, Scalar) -> Scalar,
>(
    ar: F,
    domain: Domain,
    rank: i32,
    first: Atom,
    first_registry: AtomDataRegistry<D>,
    atoms: Atom,
    registry: AtomDataRegistry<D>,
    topo: CommTopology,
    k: int,
    i: int,
    margin: real,
)
    requires
        rebuilt_upto(
            ar,
            domain,
            rank,
            first,
            first_registry,
            atoms,
            registry,
            topo,
            topo.swap_data@.len() as int,
        ),
        0 <= k < topo.swap_data@.len(),
        to_itself(topo.swap_data@[k], rank),
        0 <= i < topo.swap_data@[k - k % 2].recv_start,
        0 <= axis_of(topo.maxneed, k) < 3,
        !domain.ghost_cutoff.nan(),
        num(domain.ghost_cutoff) > 0real,
        margin == num(domain.ghost_cutoff),
        ({
            let dim = axis_of(topo.maxneed, k);
            &&& !atoms.pos@[i][dim].nan()
            &&& exact_product(ar, atoms.cutoff_radius@[i], Scalar::four())
            &&& exact_sum(ar, domain.sub_domain_low[dim], domain.ghost_cutoff)
            &&& exact_difference(ar, domain.sub_domain_high[dim], domain.ghost_cutoff)
        }),
    ensures
        ({
            let swap = topo.swap_data@[k];
            let dim = axis_of(topo.maxneed, k);
            let x = num(atoms.pos@[i][dim]);
            let near = if k % 2 == 0 {
                x - num(domain.sub_domain_low[dim]) < margin
            } else {
                num(domain.sub_domain_high[dim]) - x <= margin
            };
            near <==> exists|j: int|
                0 <= j < swap.recv_count && #[trigger] swap.send_indices@[j] == i && mirrors(
                    ar,
                    atoms.records()[swap.recv_start + j],
                    atoms.records()[i],
                    i,
                    swap.periodic_offset,
                )
        }),
{
    let swap: SwapData = topo.swap_data@[k];
    let dim: int = axis_of(topo.maxneed, k);
    let n: int = topo.swap_data@[k - k % 2].recv_start as int;
    assert(swap_made(ar, atoms, topo, domain, rank, k));
    atoms_near_a_face_are_sent(ar, atoms, domain, dim, k % 2, domain.ghost_cutoff, n);
    ghosts_lie_near_the_face(ar, atoms, domain, dim, k % 2, domain.ghost_cutoff, i, margin);
    let sent: Seq<usize> = swap.send_indices@;
    assert(sent.contains(i as usize) <==> in_skin(
        ar,
        atoms,
        domain,
        dim,
        k % 2,
        domain.ghost_cutoff,
        i,
    ));
    if sent.contains(i as usize) {
        let j: int = choose|j: int| 0 <= j < sent.len() && sent[j] == i as usize;
        assert(image_at(ar, atoms.records(), topo.swap_data@[k], j));
        assert(swap.send_indices@[j] == i);
    }
    if exists|j: int| 0 <= j < swap.recv_count && #[trigger] swap.send_indices@[j] == i {
        let j: int = choose|j: int|
            0 <= j < swap.recv_count && #[trigger] swap.send_indices@[j] == i;
        assert(sent[j] == i as usize);
    }
}

} // verus!

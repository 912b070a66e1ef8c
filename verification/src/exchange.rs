//! Handing atoms over to the process whose part of the box they entered.

use crate::atom::{exchange_words, Atom};
use crate::atom_data::{packed_row, packed_rows, AtomData, AtomDataRegistry, Entry};
use crate::domain::{BoundaryType, Domain};
use crate::scalar::{
    difference, is_arithmetic, minus, plus, product, sum, times, Op, Scalar, FRACTION,
};
use crate::sweep::{leavers, leaving, lemma_sweep, sweep};
use crate::transport::{joined, lemma_flat_push};
use vstd::prelude::*;

verus! {

/// The shortest of the displacements that differ by whole boxes, for
/// displacements of at most one and a half boxes.
pub open spec fn nearest_image<F: Fn(Op, Scalar, Scalar, Scalar) -> Scalar>(
    ar: F,
    delta: Scalar,
    box_size: Scalar,
    periodic: bool,
) -> Scalar {
    let half = product(ar, Scalar::half(), box_size);
    if periodic && half.below(delta) {
        difference(ar, delta, box_size)
    } else if periodic && delta.below(half.negated()) {
        sum(ar, delta, box_size)
    } else {
        delta
    }
}

/// Where an atom belongs along one axis: -1 to the neighbour below, 1 to the
/// neighbour above, 0 here. Displacements from the faces are taken to the
/// nearest image, so an atom that was wrapped around the box goes to the
/// neighbour it physically moved to.
pub open spec fn side<F: Fn(Op, Scalar, Scalar, Scalar) -> Scalar>(
    ar: F,
    pos: Scalar,
    sub_low: Scalar,
    sub_high: Scalar,
    box_size: Scalar,
    periodic: bool,
) -> int {
    if nearest_image(ar, difference(ar, pos, sub_low), box_size, periodic).below(Scalar::zero()) {
        -1
    } else if nearest_image(ar, difference(ar, pos, sub_high), box_size, periodic).at_least(
        Scalar::zero(),
    ) {
        1
    } else {
        0
    }
}

fn min_image<F: Fn(Op, Scalar, Scalar, Scalar) -> Scalar>(
    delta: Scalar,
    box_size: Scalar,
    periodic: bool,
    ar: &F,
) -> (r: Scalar)
    requires
        is_arithmetic(*ar),
    ensures
        r == nearest_image(*ar, delta, box_size, periodic),
{
    let half: Scalar = times(ar, Scalar::half(), box_size);
    if periodic {
        if half.lt(delta) {
            minus(ar, delta, box_size)
        } else if delta.lt(half.neg()) {
            plus(ar, delta, box_size)
        } else {
            delta
        }
    } else {
        delta
    }
}

/// Where an atom belongs along one axis.
pub fn classify<F: Fn(Op, Scalar, Scalar, Scalar) -> Scalar>(
    pos: Scalar,
    sub_low: Scalar,
    sub_high: Scalar,
    box_size: Scalar,
    periodic: bool,
    ar: &F,
) -> (r: i32)
    requires
        is_arithmetic(*ar),
    ensures
        r == side(*ar, pos, sub_low, sub_high, box_size, periodic),
{
    let disp_lo: Scalar = min_image(minus(ar, pos, sub_low), box_size, periodic, ar);
    let disp_hi: Scalar = min_image(minus(ar, pos, sub_high), box_size, periodic, ar);
    if disp_lo.lt(Scalar::zero()) {
        -1
    } else if disp_hi.ge(Scalar::zero()) {
        1
    } else {
        0
    }
}

/// Where each atom belongs along axis `dim`.
pub open spec fn sides<F: Fn(Op, Scalar, Scalar, Scalar) -> Scalar>(
    ar: F,
    atoms: Atom,
    domain: Domain,
    dim: int,
) -> Seq<int> {
    Seq::new(
        atoms.records().len(),
        |i: int|
            side(
                ar,
                atoms.pos@[i][dim],
                domain.sub_domain_low[dim],
                domain.sub_domain_high[dim],
                domain.size[dim],
                domain.boundary_type[dim] == BoundaryType::Periodic,
            ),
    )
}

/// Which atoms belong to side `s`.
pub open spec fn on_side(sides: Seq<int>, s: int) -> Seq<bool> {
    Seq::new(sides.len(), |i: int| sides[i] == s)
}

/// Which atoms do not belong here.
pub open spec fn elsewhere(sides: Seq<int>) -> Seq<bool> {
    Seq::new(sides.len(), |i: int| sides[i] != 0)
}

/// One atom with its extension data, packed for its new owner.
pub open spec fn exchange_part<D: AtomData, F: Fn(Op, Scalar, Scalar, Scalar) -> Scalar>(
    ar: F,
    atoms: Atom,
    stores: Seq<Entry<D>>,
    i: int,
) -> Seq<Scalar> {
    exchange_words(atoms, i, ar) + packed_rows(stores, i, stores.len() as int)
}

/// Every atom with its extension data, packed.
pub open spec fn exchange_parts<D: AtomData, F: Fn(Op, Scalar, Scalar, Scalar) -> Scalar>(
    ar: F,
    atoms: Atom,
    stores: Seq<Entry<D>>,
) -> Seq<Seq<Scalar>> {
    Seq::new(atoms.records().len(), |i: int| exchange_part(ar, atoms, stores, i))
}

/// The atoms that leave along one axis, packed for the neighbours below and above.
pub struct Outgoing {
    pub lo: Vec<Scalar>,
    pub hi: Vec<Scalar>,
    pub lo_count: usize,
    pub hi_count: usize,
}

proof fn lemma_same_packed<D: AtomData>(a: Seq<Entry<D>>, b: Seq<Entry<D>>, i: int, k: int)
    requires
        0 <= k <= a.len() == b.len(),
        forall|s: int|
            0 <= s < a.len() ==> packed_row((#[trigger] a[s]).data, i) == packed_row(b[s].data, i),
    ensures
        packed_rows(a, i, k) == packed_rows(b, i, k),
    decreases k,
{
    if k > 0 {
        lemma_same_packed(a, b, i, k - 1);
        assert(packed_row(a[k - 1].data, i) == packed_row(b[k - 1].data, i));
    }
}

/// The atoms that leave are gone, from the arrays and from all extension data.
pub open spec fn swept<D: AtomData>(
    atoms: Atom,
    registry: AtomDataRegistry<D>,
    new: Atom,
    new_registry: AtomDataRegistry<D>,
    leave: Seq<bool>,
) -> bool {
    &&& new.records() == sweep(atoms.records(), leave, 0)
    &&& forall|s: int|
        0 <= s < registry.stores@.len() ==> (#[trigger] new_registry.stores@[s]).data.rows()
            == sweep(registry.stores@[s].data.rows(), leave, 0)
}

/// Removes the atoms that do not belong here along axis `dim`, from the last
/// to the first, and packs each for the neighbour it belongs to.
pub fn exchange_scan<D: AtomData, F: Fn(Op, Scalar, Scalar, Scalar) -> Scalar>(
    atoms: &mut Atom,
    registry: &mut AtomDataRegistry<D>,
    domain: &Domain,
    dim: usize,
    ar: &F,
) -> (r: Outgoing)
    requires
        is_arithmetic(*ar),
        old(atoms).wf(),
        old(registry).wf(),
        old(registry).parallel_to(old(atoms).records().len() as int),
        dim < 3,
    ensures
        final(atoms).wf(),
        final(registry).wf(),
        final(atoms).same_header(old(atoms)),
        final(registry).same_stores(old(registry)),
        final(registry).parallel_to(final(atoms).records().len() as int),
        swept(
            *old(atoms),
            *old(registry),
            *final(atoms),
            *final(registry),
            elsewhere(sides(*ar, *old(atoms), *domain, dim as int)),
        ),
        ({
            let places = sides(*ar, *old(atoms), *domain, dim as int);
            let parts = exchange_parts(*ar, *old(atoms), old(registry).stores@);
            &&& r.lo@ == joined(leavers(parts, on_side(places, -1), 0))
            &&& r.hi@ == joined(leavers(parts, on_side(places, 1), 0))
            &&& r.lo_count == leaving(on_side(places, -1), 0)
            &&& r.hi_count == leaving(on_side(places, 1), 0)
        }),
{
    let ghost start: Atom = *atoms;
    let ghost stores: Seq<Entry<D>> = registry.stores@;
    let ghost places: Seq<int> = sides(*ar, *atoms, *domain, dim as int);
    let ghost leave: Seq<bool> = elsewhere(places);
    let ghost low: Seq<bool> = on_side(places, -1);
    let ghost high: Seq<bool> = on_side(places, 1);
    let ghost parts: Seq<Seq<Scalar>> = exchange_parts(*ar, *atoms, stores);
    let ghost all: int = atoms.records().len() as int;
    let periodic: bool = domain.is_periodic(dim);
    let sub_low: Scalar = domain.sub_domain_low[dim];
    let sub_high: Scalar = domain.sub_domain_high[dim];
    let box_size: Scalar = domain.size[dim];
    let mut lo: Vec<Scalar> = Vec::new();
    let mut hi: Vec<Scalar> = Vec::new();
    let mut lo_count: usize = 0;
    let mut hi_count: usize = 0;
    let total: usize = atoms.len();
    let mut i: usize = total;
    while i > 0
        invariant
            is_arithmetic(*ar),
            dim < 3,
            all == total,
            start == *old(atoms),
            stores == old(registry).stores@,
            all == start.records().len(),
            places == sides(*ar, start, *domain, dim as int),
            leave == elsewhere(places),
            low == on_side(places, -1),
            high == on_side(places, 1),
            parts == exchange_parts(*ar, start, stores),
            periodic == (domain.boundary_type[dim as int] == BoundaryType::Periodic),
            sub_low == domain.sub_domain_low[dim as int],
            sub_high == domain.sub_domain_high[dim as int],
            box_size == domain.size[dim as int],
            i <= all,
            atoms.wf(),
            registry.wf(),
            atoms.same_header(&start),
            old(registry).parallel_to(all),
            registry.same_stores(old(registry)),
            registry.parallel_to(atoms.records().len() as int),
            atoms.records() == sweep(start.records(), leave, i as int),
            forall|s: int|
                0 <= s < stores.len() ==> (#[trigger] registry.stores@[s]).data.rows() == sweep(
                    stores[s].data.rows(),
                    leave,
                    i as int,
                ),
            lo@ == joined(leavers(parts, low, i as int)),
            hi@ == joined(leavers(parts, high, i as int)),
            lo_count == leaving(low, i as int),
            hi_count == leaving(high, i as int),
            lo_count <= all - i,
            hi_count <= all - i,
        decreases i,
    {
        i = i - 1;
        proof {
            lemma_sweep(start.records(), leave, i + 1);
            assert(atoms.records()[i as int] == start.records()[i as int]);
            assert(exchange_words(*atoms, i as int, *ar) == exchange_words(start, i as int, *ar)) by {
                assert(atoms.record(i as int) == start.record(i as int));
            }
            assert forall|s: int| 0 <= s < stores.len() implies packed_row(
                (#[trigger] stores[s]).data,
                i as int,
            ) == packed_row(registry.stores@[s].data, i as int) by {
                assert(registry.stores@[s].data.rows() == sweep(
                    stores[s].data.rows(),
                    leave,
                    i + 1,
                ));
                lemma_sweep(stores[s].data.rows(), leave, i + 1);
            }
            lemma_same_packed(stores, registry.stores@, i as int, stores.len() as int);
            let part: Seq<Scalar> = parts[i as int];
            lemma_flat_push(leavers(parts, low, i + 1), part);
            lemma_flat_push(leavers(parts, high, i + 1), part);
            assert(atoms.pos@[i as int] == start.pos@[i as int]);
        }
        let pos: Scalar = atoms.pos[i][dim];
        let s: i32 = classify(pos, sub_low, sub_high, box_size, periodic, ar);
        assert(s == places[i as int]);
        if s < 0 {
            let ghost mid: Seq<Scalar> = lo@;
            lo_count = lo_count + 1;
            atoms.pack_exchange(i, &mut lo, ar);
            registry.pack_all(i, &mut lo);
            assert(lo@ =~= mid + parts[i as int]);
            atoms.swap_remove(i);
            registry.swap_remove_all(i);
        } else if s > 0 {
            let ghost mid: Seq<Scalar> = hi@;
            hi_count = hi_count + 1;
            atoms.pack_exchange(i, &mut hi, ar);
            registry.pack_all(i, &mut hi);
            assert(hi@ =~= mid + parts[i as int]);
            atoms.swap_remove(i);
            registry.swap_remove_all(i);
        }
    }
    Outgoing { lo, hi, lo_count, hi_count }
}

/// How a process takes part in one direction of a swap.
#[derive(Clone, Copy, PartialEq, Eq, Structural, Debug)]
pub enum Transfer {
    /// Send to one neighbour and receive from the other.
    Both { to: i32, from: i32 },
    Send { to: i32 },
    Receive { from: i32 },
    Nothing,
}

/// The part that a process takes, with -1 for a neighbour that does not exist.
pub open spec fn transfer_of(to: i32, from: i32) -> Transfer {
    if to != -1 && from != -1 {
        Transfer::Both { to, from }
    } else if to != -1 {
        Transfer::Send { to }
    } else if from != -1 {
        Transfer::Receive { from }
    } else {
        Transfer::Nothing
    }
}

/// The part that a process takes.
pub fn transfer(to: i32, from: i32) -> (r: Transfer)
    ensures
        r == transfer_of(to, from),
{
    if to != -1 && from != -1 {
        Transfer::Both { to, from }
    } else if to != -1 {
        Transfer::Send { to }
    } else if from != -1 {
        Transfer::Receive { from }
    } else {
        Transfer::Nothing
    }
}

/// The two transfers of an exchange along one axis: atoms go down first, then
/// up. An axis with a single process exchanges nothing.
pub fn exchange_transfers(decomp: i32, lo_proc: i32, hi_proc: i32) -> (r: (Transfer, Transfer))
    ensures
        decomp == 1 ==> r.0 == Transfer::Nothing && r.1 == Transfer::Nothing,
        decomp != 1 ==> r.0 == transfer_of(lo_proc, hi_proc) && r.1 == transfer_of(
            hi_proc,
            lo_proc,
        ),
{
    if decomp == 1 {
        (Transfer::Nothing, Transfer::Nothing)
    } else {
        (transfer(lo_proc, hi_proc), transfer(hi_proc, lo_proc))
    }
}

/// A send always meets a receive: where a process sends to its neighbour, the
/// neighbour, who sees the sender on its other side, receives.
pub proof fn transfers_match(to: i32, from: i32, far: i32, me: i32)
    requires
        to != -1,
        me != -1,
    ensures
        transfer_of(to, from) is Both || transfer_of(to, from) is Send,
        transfer_of(far, me) is Both || transfer_of(far, me) is Receive,
        transfer_of(far, me) matches Transfer::Both { from: f, .. } ==> f == me,
        transfer_of(far, me) matches Transfer::Receive { from: f } ==> f == me,
{
}

/// The announcement that goes before a message: its atoms and its length.
pub fn announce(count: usize, len: usize) -> (r: [Scalar; 2])
    requires
        count <= 2 * FRACTION,
        len <= 2 * FRACTION,
    ensures
        r[0] == crate::scalar::int_word(count as int),
        r[1] == crate::scalar::int_word(len as int),
{
    [Scalar::from_u64(count as u64), Scalar::from_u64(len as u64)]
}

/// The atoms and the length that an announcement gives.
pub fn announced(meta: [Scalar; 2]) -> (r: (usize, usize))
    ensures
        r.0 == crate::scalar::clamp_int(meta[0].integer_part(), 0, usize::MAX as int),
        r.1 == crate::scalar::clamp_int(meta[1].integer_part(), 0, usize::MAX as int),
{
    (meta[0].to_usize(), meta[1].to_usize())
}

/// An announcement is understood as it was meant.
pub proof fn announcement_round_trip(count: usize, len: usize, meta: [Scalar; 2])
    requires
        count <= 2 * FRACTION,
        len <= 2 * FRACTION,
        meta[0] == crate::scalar::int_word(count as int),
        meta[1] == crate::scalar::int_word(len as int),
    ensures
        crate::scalar::clamp_int(meta[0].integer_part(), 0, usize::MAX as int) == count,
        crate::scalar::clamp_int(meta[1].integer_part(), 0, usize::MAX as int) == len,
{
    crate::bond::lemma_int_word(count as int);
    crate::bond::lemma_int_word(len as int);
}

/// The atom lies outside this process's part along an axis that is split.
pub open spec fn misplaced(atoms: Atom, domain: Domain, decomp: [i32; 3], i: int) -> bool {
    exists|d: int|
        0 <= d < 3 && decomp[d] != 1 && ((#[trigger] atoms.pos@[i][d]).below(
            domain.sub_domain_low[d],
        ) || atoms.pos@[i][d].at_least(domain.sub_domain_high[d]))
}

/// The number of atoms below `n` that lie outside this process's part.
pub open spec fn misplaced_upto(atoms: Atom, domain: Domain, decomp: [i32; 3], n: int) -> nat
    decreases n,
{
    if n <= 0 {
        0
    } else {
        misplaced_upto(atoms, domain, decomp, n - 1) + if misplaced(atoms, domain, decomp, n - 1) {
            1nat
        } else {
            0
        }
    }
}

/// Counts the atoms that one hop did not bring to their owner.
pub fn count_lost(atoms: &Atom, domain: &Domain, decomp: [i32; 3]) -> (r: usize)
    ensures
        r == misplaced_upto(*atoms, *domain, decomp, atoms.pos@.len() as int),
{
    let mut lost: usize = 0;
    let mut i: usize = 0;
    while i < atoms.pos.len()
        invariant
            i <= atoms.pos@.len(),
            lost <= i,
            lost == misplaced_upto(*atoms, *domain, decomp, i as int),
        decreases atoms.pos.len() - i,
    {
        let mut out: bool = false;
        let mut d: usize = 0;
        while d < 3
            invariant
                d <= 3,
                i < atoms.pos@.len(),
                out == exists|k: int|
                    0 <= k < d && decomp[k] != 1 && ((#[trigger] atoms.pos@[i as int][k]).below(
                        domain.sub_domain_low[k],
                    ) || atoms.pos@[i as int][k].at_least(domain.sub_domain_high[k])),
            decreases 3 - d,
        {
            let x: Scalar = atoms.pos[i][d];
            if decomp[d] != 1 && (x.lt(domain.sub_domain_low[d]) || x.ge(domain.sub_domain_high[d])) {
                out = true;
            }
            d = d + 1;
        }
        if out {
            lost = lost + 1;
        }
        i = i + 1;
    }
    lost
}

/// The indices that leave, in the order in which they are visited.
pub open spec fn leaving_indices(leave: Seq<bool>, k: int) -> Seq<int> {
    leavers(Seq::new(leave.len(), |i: int| i), leave, k)
}

pub proof fn lemma_leavers_at<T>(s: Seq<T>, leave: Seq<bool>, k: int, j: int)
    requires
        0 <= k <= leave.len() == s.len(),
    ensures
        leavers(s, leave, k).len() == leaving(leave, k),
        leaving_indices(leave, k).len() == leaving(leave, k),
        0 <= j < leaving(leave, k) ==> {
            &&& k <= leaving_indices(leave, k)[j] < leave.len()
            &&& leave[leaving_indices(leave, k)[j]]
            &&& leavers(s, leave, k)[j] == s[leaving_indices(leave, k)[j]]
        },
    decreases leave.len() - k,
{
    if k < leave.len() {
        lemma_leavers_at(s, leave, k + 1, j);
    }
}

/// Atoms that are handed over arrive, each once and with all its extension
/// data: the message for one side reads back, on a process with the same
/// stores, as the packed atoms of that side in the order in which they left.
pub proof fn handed_over_atoms_arrive<D: AtomData, F: Fn(Op, Scalar, Scalar, Scalar) -> Scalar>(
    ar: F,
    atoms: Atom,
    registry: AtomDataRegistry<D>,
    leave: Seq<bool>,
    to: Seq<Entry<D>>,
)
    requires
        atoms.wf(),
        registry.wf(),
        registry.parallel_to(atoms.records().len() as int),
        leave.len() == atoms.records().len(),
        crate::transport::matching(registry.stores@, to),
    ensures
        ({
            let data = joined(leavers(exchange_parts(ar, atoms, registry.stores@), leave, 0));
            let count = leaving(leave, 0) as int;
            let from = leaving_indices(leave, 0);
            &&& crate::ghosts::readable_atoms(to, data, count)
            &&& crate::ghosts::atom_start(to, data, count) == data.len()
            &&& from.len() == count
            &&& forall|j: int|
                0 <= j < count ==> 0 <= #[trigger] from[j] < atoms.records().len() && leave[from[j]]
            &&& forall|j: int|
                0 <= j < count ==> (#[trigger] data.skip(crate::ghosts::atom_start(to, data, j))).take(
                    17,
                ) == exchange_words(atoms, from[j], ar)
            &&& forall|j: int, s: int|
                0 <= j < count && 0 <= s < to.len() ==> #[trigger] crate::ghosts::row_in_message(
                    to,
                    data,
                    j,
                    s,
                ) == registry.stores@[s].data.rows()[from[j]]
        }),
{
    let stores: Seq<Entry<D>> = registry.stores@;
    let all: Seq<Seq<Scalar>> = exchange_parts(ar, atoms, stores);
    let words: Seq<Seq<Scalar>> = Seq::new(
        atoms.records().len(),
        |i: int| exchange_words(atoms, i, ar),
    );
    let parts: Seq<Seq<Scalar>> = leavers(all, leave, 0);
    let heads: Seq<Seq<Scalar>> = leavers(words, leave, 0);
    let from: Seq<int> = leaving_indices(leave, 0);
    lemma_leavers_at(all, leave, 0, 0);
    lemma_leavers_at(words, leave, 0, 0);
    assert(crate::transport::atom_parts(parts, heads, stores, from)) by {
        assert forall|j: int| 0 <= j < parts.len() implies {
            &&& #[trigger] parts[j] == heads[j] + packed_rows(stores, from[j], stores.len() as int)
            &&& heads[j].len() == crate::atom::ATOM_PACK_SIZE
            &&& crate::transport::holds_atom(stores, from[j])
        } by {
            lemma_leavers_at(all, leave, 0, j);
            lemma_leavers_at(words, leave, 0, j);
        }
    }
    crate::transport::atoms_travel(parts, heads, stores, to, from, parts.len() as int);
    let data: Seq<Scalar> = joined(parts);
    assert forall|j: int| 0 <= j < parts.len() implies 0 <= #[trigger] from[j]
        < atoms.records().len() && leave[from[j]] by {
        lemma_leavers_at(words, leave, 0, j);
    }
    assert forall|j: int| 0 <= j < parts.len() implies (#[trigger] data.skip(
        crate::ghosts::atom_start(to, data, j),
    )).take(17) == exchange_words(atoms, from[j], ar) by {
        lemma_leavers_at(words, leave, 0, j);
    }
    let count: int = leaving(leave, 0) as int;
    assert(parts.len() == count);
    assert(crate::ghosts::readable_atoms(to, data, count));
    assert(crate::ghosts::atom_start(to, data, count) == data.len());
    assert forall|j: int, s: int|
        0 <= j < count && 0 <= s < to.len() implies #[trigger] crate::ghosts::row_in_message(
        to,
        data,
        j,
        s,
    ) == registry.stores@[s].data.rows()[from[j]] by {}
}

} // verus!

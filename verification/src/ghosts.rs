//! Making ghosts and receiving atoms.

use crate::atom::{border_words, reads_as, Atom, Record, ATOM_PACK_SIZE};
use crate::atom_data::{
    packed_rows, readable_all, taken_upto, AtomData, AtomDataRegistry, Entry,
};
use crate::domain::Domain;
use crate::scalar::{
    difference, is_arithmetic, minus, plus, product, quotient, sum, times, Op, Scalar, Vec3,
};
use crate::transport::{joined, lemma_flat_push};
use vstd::prelude::*;

verus! {

/// A message of `count` atoms: where atom `k` begins in `data`.
pub open spec fn atom_start<D: AtomData>(stores: Seq<Entry<D>>, data: Seq<Scalar>, k: int) -> int
    decreases k,
{
    if k <= 0 {
        0
    } else {
        let at: int = atom_start(stores, data, k - 1);
        at + ATOM_PACK_SIZE + taken_upto(
            stores,
            data.skip(at + ATOM_PACK_SIZE),
            stores.len() as int,
        )
    }
}

/// `count` atoms with their extension data can be read from `data`.
pub open spec fn readable_atoms<D: AtomData>(
    stores: Seq<Entry<D>>,
    data: Seq<Scalar>,
    count: int,
) -> bool {
    forall|k: int|
        0 <= k < count ==> {
            &&& #[trigger] atom_start(stores, data, k) + ATOM_PACK_SIZE <= data.len()
            &&& readable_all(stores, data.skip(atom_start(stores, data, k) + ATOM_PACK_SIZE))
        }
}

/// Whether `count` atoms with their extension data can be read from `data`.
pub fn atoms_readable<D: AtomData>(
    registry: &AtomDataRegistry<D>,
    data: &[Scalar],
    count: usize,
) -> (r: bool)
    requires
        registry.wf(),
    ensures
        r == readable_atoms(registry.stores@, data@, count as int),
{
    let ghost stores: Seq<Entry<D>> = registry.stores@;
    let mut pos: usize = 0;
    let mut k: usize = 0;
    while k < count
        invariant
            registry.wf(),
            stores == registry.stores@,
            k <= count,
            pos == atom_start(stores, data@, k as int),
            pos <= data@.len(),
            readable_atoms(stores, data@, k as int),
        decreases count - k,
    {
        if data.len() - pos < ATOM_PACK_SIZE {
            assert(atom_start(stores, data@, k as int) + ATOM_PACK_SIZE > data@.len());
            return false;
        }
        let tail: &[Scalar] = vstd::slice::slice_subrange(data, pos + ATOM_PACK_SIZE, data.len());
        assert(tail@ =~= data@.skip(atom_start(stores, data@, k as int) + ATOM_PACK_SIZE));
        match registry.measure_all(tail) {
            Some(n) => {
                pos = pos + ATOM_PACK_SIZE + n;
            },
            None => {
                assert(!readable_all(
                    stores,
                    data@.skip(atom_start(stores, data@, k as int) + ATOM_PACK_SIZE),
                ));
                return false;
            },
        }
        k = k + 1;
    }
    true
}

/// The row that store `s` gets for atom `k` of a message.
pub open spec fn row_in_message<D: AtomData>(
    stores: Seq<Entry<D>>,
    data: Seq<Scalar>,
    k: int,
    s: int,
) -> Seq<Scalar> {
    let tail: Seq<Scalar> = data.skip(atom_start(stores, data, k) + ATOM_PACK_SIZE);
    D::read(stores[s].data.shape(), tail.skip(taken_upto(stores, tail, s) as int))
}

proof fn lemma_taken_alike<D: AtomData>(
    a: Seq<Entry<D>>,
    b: Seq<Entry<D>>,
    buf: Seq<Scalar>,
    k: int,
)
    requires
        0 <= k <= a.len(),
        a.len() == b.len(),
        forall|j: int| 0 <= j < a.len() ==> (#[trigger] a[j]).data.shape() == b[j].data.shape(),
    ensures
        taken_upto(a, buf, k) == taken_upto(b, buf, k),
    decreases k,
{
    if k > 0 {
        lemma_taken_alike(a, b, buf, k - 1);
        assert(a[k - 1].data.shape() == b[k - 1].data.shape());
    }
}

proof fn lemma_readable_alike<D: AtomData>(a: Seq<Entry<D>>, b: Seq<Entry<D>>, buf: Seq<Scalar>)
    requires
        a.len() == b.len(),
        forall|j: int| 0 <= j < a.len() ==> (#[trigger] a[j]).data.shape() == b[j].data.shape(),
        readable_all(a, buf),
    ensures
        readable_all(b, buf),
{
    assert forall|k: int| 0 <= k < b.len() implies D::readable(
        (#[trigger] b[k]).data.shape(),
        buf.skip(taken_upto(b, buf, k) as int),
    ) by {
        lemma_taken_alike(a, b, buf, k);
        assert(a[k].data.shape() == b[k].data.shape());
    }
}

/// Appends `count` atoms with their extension data.
pub fn unpack_atoms<D: AtomData, F: Fn(Op, Scalar, Scalar, Scalar) -> Scalar>(
    atoms: &mut Atom,
    registry: &mut AtomDataRegistry<D>,
    data: &[Scalar],
    count: usize,
    is_ghost: bool,
    ar: &F,
)
    requires
        is_arithmetic(*ar),
        old(atoms).wf(),
        old(registry).wf(),
        readable_atoms(old(registry).stores@, data@, count as int),
    ensures
        final(atoms).wf(),
        final(registry).wf(),
        final(atoms).same_header(old(atoms)),
        final(registry).same_stores(old(registry)),
        final(atoms).records().len() == old(atoms).records().len() + count,
        final(atoms).records().take(old(atoms).records().len() as int) == old(atoms).records(),
        forall|k: int|
            0 <= k < count ==> reads_as(
                #[trigger] final(atoms).records()[old(atoms).records().len() + k],
                data@.skip(atom_start(old(registry).stores@, data@, k)),
                is_ghost,
                quotient(
                    *ar,
                    Scalar::one(),
                    data@[atom_start(old(registry).stores@, data@, k) + 13],
                ),
            ),
        forall|s: int|
            0 <= s < old(registry).stores@.len() ==> (
            #[trigger] final(registry).stores@[s]).data.rows() == old(registry).stores@[s].data.rows() + Seq::new(
                count as nat,
                |k: int| row_in_message(old(registry).stores@, data@, k, s),
            ),
        forall|m: int| #[trigger] old(registry).parallel_to(m) ==> final(registry).parallel_to(
            m + count,
        ),
{
    let ghost first: int = atoms.records().len() as int;
    let ghost stores: Seq<Entry<D>> = registry.stores@;
    let ghost before: Seq<Record> = atoms.records();
    atoms.reserve(count);
    let mut pos: usize = 0;
    let mut k: usize = 0;
    proof {
        assert(atoms.records().take(first) =~= before);
        assert forall|s: int| 0 <= s < stores.len() implies (
        #[trigger] registry.stores@[s]).data.rows() == stores[s].data.rows() + Seq::new(
            0,
            |j: int| row_in_message(stores, data@, j, s),
        ) by {
            assert(stores[s].data.rows() =~= stores[s].data.rows() + Seq::new(
                0,
                |j: int| row_in_message(stores, data@, j, s),
            ));
        }
    }
    while k < count
        invariant
            is_arithmetic(*ar),
            k <= count,
            stores == old(registry).stores@,
            before == old(atoms).records(),
            first == before.len(),
            readable_atoms(stores, data@, count as int),
            pos == atom_start(stores, data@, k as int),
            k > 0 ==> pos <= data@.len(),
            atoms.wf(),
            registry.wf(),
            atoms.same_header(old(atoms)),
            registry.same_stores(old(registry)),
            atoms.records().len() == first + k,
            atoms.records().take(first) == before,
            forall|j: int|
                0 <= j < k ==> reads_as(
                    #[trigger] atoms.records()[first + j],
                    data@.skip(atom_start(stores, data@, j)),
                    is_ghost,
                    quotient(*ar, Scalar::one(), data@[atom_start(stores, data@, j) + 13]),
                ),
            forall|s: int|
                0 <= s < stores.len() ==> (#[trigger] registry.stores@[s]).data.rows()
                    == stores[s].data.rows() + Seq::new(
                    k as nat,
                    |j: int| row_in_message(stores, data@, j, s),
                ),
            forall|m: int| #[trigger] old(registry).parallel_to(m) ==> registry.parallel_to(m + k),
        decreases count - k,
    {
        assert(atom_start(stores, data@, k as int) + ATOM_PACK_SIZE <= data@.len());
        let ghost mid: Seq<Record> = atoms.records();
        let ghost now: Seq<Entry<D>> = registry.stores@;
        let head: &[Scalar] = vstd::slice::slice_subrange(data, pos, data.len());
        assert(head@ =~= data@.skip(pos as int));
        let used: usize = atoms.unpack_atom(head, is_ghost, ar);
        let ghost at: int = pos as int;
        pos = pos + used;
        let tail: &[Scalar] = vstd::slice::slice_subrange(data, pos, data.len());
        proof {
            assert(tail@ =~= data@.skip(at + ATOM_PACK_SIZE));
            assert forall|j: int| 0 <= j < stores.len() implies (#[trigger] stores[j]).data.shape()
                == now[j].data.shape() by {
                assert(now[j].key == stores[j].key);
            }
            lemma_readable_alike(stores, now, tail@);
            lemma_taken_alike(stores, now, tail@, stores.len() as int);
        }
        let more: usize = registry.unpack_all(tail);
        pos = pos + more;
        proof {
            assert(atoms.records().take(first) =~= before) by {
                assert forall|j: int| 0 <= j < first implies atoms.records()[j] == before[j] by {
                    assert(atoms.records().drop_last()[j] == mid[j]);
                    assert(mid.take(first)[j] == mid[j]);
                }
            }
            assert forall|j: int| 0 <= j < k + 1 implies reads_as(
                #[trigger] atoms.records()[first + j],
                data@.skip(atom_start(stores, data@, j)),
                is_ghost,
                quotient(*ar, Scalar::one(), data@[atom_start(stores, data@, j) + 13]),
            ) by {
                if j < k {
                    assert(atoms.records().drop_last()[first + j] == mid[first + j]);
                } else {
                    assert(atoms.records()[first + j] == atoms.records().last());
                    assert(head@[13] == data@[at + 13]);
                }
            }
            assert forall|s: int| 0 <= s < stores.len() implies (
            #[trigger] registry.stores@[s]).data.rows() == stores[s].data.rows() + Seq::new(
                (k + 1) as nat,
                |j: int| row_in_message(stores, data@, j, s),
            ) by {
                lemma_taken_alike(stores, now, tail@, s);
                assert(now[s].key == stores[s].key);
                assert(registry.stores@[s].data.rows() =~= stores[s].data.rows() + Seq::new(
                    (k + 1) as nat,
                    |j: int| row_in_message(stores, data@, j, s),
                ));
            }
            assert forall|m: int| #[trigger]
                old(registry).parallel_to(m) implies registry.parallel_to(m + k + 1) by {}
        }
        k = k + 1;
    }
}

/// Appends the ghosts of a message that ends with their number.
pub fn unpack_ghost_atoms<D: AtomData, F: Fn(Op, Scalar, Scalar, Scalar) -> Scalar>(
    atoms: &mut Atom,
    registry: &mut AtomDataRegistry<D>,
    buf: &Vec<Scalar>,
    count: usize,
    ar: &F,
)
    requires
        is_arithmetic(*ar),
        old(atoms).wf(),
        old(registry).wf(),
        buf@.len() >= 1,
        readable_atoms(old(registry).stores@, buf@.drop_last(), count as int),
        old(atoms).nghost + count <= u32::MAX,
    ensures
        received_atoms(
            *old(atoms),
            *final(atoms),
            *old(registry),
            *final(registry),
            buf@.drop_last(),
            count as int,
            true,
            *ar,
        ),
        final(atoms).nghost == old(atoms).nghost + count,
        final(atoms).nlocal == old(atoms).nlocal,
        final(atoms).natoms == old(atoms).natoms,
        final(atoms).ntypes == old(atoms).ntypes,
        final(atoms).dt == old(atoms).dt,
{
    let data: &[Scalar] = vstd::slice::slice_subrange(buf.as_slice(), 0, buf.len() - 1);
    assert(data@ =~= buf@.drop_last());
    unpack_atoms(atoms, registry, data, count, true, ar);
    let ghost mid: Seq<Record> = atoms.records();
    atoms.nghost = atoms.nghost + count as u32;
    assert(atoms.records() =~= mid);
}

/// Appends the ghosts of a message.
pub fn unpack_ghost_payload<D: AtomData, F: Fn(Op, Scalar, Scalar, Scalar) -> Scalar>(
    atoms: &mut Atom,
    registry: &mut AtomDataRegistry<D>,
    data: &[Scalar],
    count: usize,
    ar: &F,
)
    requires
        is_arithmetic(*ar),
        old(atoms).wf(),
        old(registry).wf(),
        readable_atoms(old(registry).stores@, data@, count as int),
        old(atoms).nghost + count <= u32::MAX,
    ensures
        received_atoms(
            *old(atoms),
            *final(atoms),
            *old(registry),
            *final(registry),
            data@,
            count as int,
            true,
            *ar,
        ),
        final(atoms).nghost == old(atoms).nghost + count,
        final(atoms).nlocal == old(atoms).nlocal,
        final(atoms).natoms == old(atoms).natoms,
        final(atoms).ntypes == old(atoms).ntypes,
        final(atoms).dt == old(atoms).dt,
{
    unpack_atoms(atoms, registry, data, count, true, ar);
    let ghost mid: Seq<Record> = atoms.records();
    atoms.nghost = atoms.nghost + count as u32;
    assert(atoms.records() =~= mid);
}

/// Appends the atoms that another process handed over.
pub fn unpack_exchanged<D: AtomData, F: Fn(Op, Scalar, Scalar, Scalar) -> Scalar>(
    atoms: &mut Atom,
    registry: &mut AtomDataRegistry<D>,
    data: &[Scalar],
    count: usize,
    ar: &F,
)
    requires
        is_arithmetic(*ar),
        old(atoms).wf(),
        old(registry).wf(),
        readable_atoms(old(registry).stores@, data@, count as int),
    ensures
        received_atoms(
            *old(atoms),
            *final(atoms),
            *old(registry),
            *final(registry),
            data@,
            count as int,
            false,
            *ar,
        ),
        final(atoms).same_header(old(atoms)),
{
    unpack_atoms(atoms, registry, data, count, false, ar);
}

/// The atoms and all extension data after the `count` atoms of a message were
/// appended, each at the end of its array.
pub open spec fn received_atoms<D: AtomData, F: Fn(Op, Scalar, Scalar, Scalar) -> Scalar>(
    atoms: Atom,
    new_atoms: Atom,
    registry: AtomDataRegistry<D>,
    new_registry: AtomDataRegistry<D>,
    data: Seq<Scalar>,
    count: int,
    is_ghost: bool,
    ar: F,
) -> bool {
    let first = atoms.records().len();
    let stores = registry.stores@;
    &&& new_atoms.wf()
    &&& new_registry.wf()
    &&& new_registry.same_stores(&registry)
    &&& new_atoms.records().len() == first + count
    &&& new_atoms.records().take(first as int) == atoms.records()
    &&& forall|k: int|
        0 <= k < count ==> reads_as(
            #[trigger] new_atoms.records()[first + k],
            data.skip(atom_start(stores, data, k)),
            is_ghost,
            quotient(ar, Scalar::one(), data[atom_start(stores, data, k) + 13]),
        )
    &&& forall|s: int|
        0 <= s < stores.len() ==> (#[trigger] new_registry.stores@[s]).data.rows()
            == stores[s].data.rows() + Seq::new(
            count as nat,
            |k: int| row_in_message(stores, data, k, s),
        )
    &&& forall|m: int| #[trigger] registry.parallel_to(m) ==> new_registry.parallel_to(m + count)
}

/// The offset that is `x` along axis `d` and zero along the others.
pub open spec fn along(d: int, x: Scalar) -> Vec3 {
    let zero = Scalar::zero();
    [
        if d == 0 {
            x
        } else {
            zero
        },
        if d == 1 {
            x
        } else {
            zero
        },
        if d == 2 {
            x
        } else {
            zero
        },
    ]
}

/// The offset of ghosts that cross the face of axis `dim`.
pub fn offset_along(dim: usize, x: Scalar) -> (r: Vec3)
    requires
        dim < 3,
    ensures
        r == along(dim as int, x),
{
    let zero: Scalar = Scalar::zero();
    let mut r: Vec3 = [zero, zero, zero];
    r[dim] = x;
    assert(r =~= along(dim as int, x));
    r
}

/// Atom `i` is close enough to the lower (`swap` 0) or upper (`swap` 1) face
/// to be a ghost of the neighbour there. With a ghost cutoff the distance is
/// the cutoff, without one it is four times the atom's radius.
pub open spec fn in_skin<F: Fn(Op, Scalar, Scalar, Scalar) -> Scalar>(
    ar: F,
    atoms: Atom,
    domain: Domain,
    dim: int,
    swap: int,
    ghost_cutoff: Scalar,
    i: int,
) -> bool {
    let x = atoms.pos@[i][dim];
    let cut = if Scalar::zero().below(ghost_cutoff) {
        ghost_cutoff
    } else {
        product(ar, atoms.cutoff_radius@[i], Scalar::four())
    };
    if swap == 0 {
        x.below(sum(ar, domain.sub_domain_low[dim], cut))
    } else {
        x.at_least(difference(ar, domain.sub_domain_high[dim], cut))
    }
}

/// The atoms below `n` that are close enough to the face, in order.
pub open spec fn skin_atoms<F: Fn(Op, Scalar, Scalar, Scalar) -> Scalar>(
    ar: F,
    atoms: Atom,
    domain: Domain,
    dim: int,
    swap: int,
    ghost_cutoff: Scalar,
    n: int,
) -> Seq<usize>
    decreases n,
{
    if n <= 0 {
        Seq::empty()
    } else if in_skin(ar, atoms, domain, dim, swap, ghost_cutoff, n - 1) {
        skin_atoms(ar, atoms, domain, dim, swap, ghost_cutoff, n - 1).push((n - 1) as usize)
    } else {
        skin_atoms(ar, atoms, domain, dim, swap, ghost_cutoff, n - 1)
    }
}

/// Which atoms are near a face is a matter of those atoms alone.
pub proof fn lemma_skin_alike<F: Fn(Op, Scalar, Scalar, Scalar) -> Scalar>(
    ar: F,
    a: Atom,
    b: Atom,
    domain: Domain,
    dim: int,
    swap: int,
    ghost_cutoff: Scalar,
    n: int,
)
    requires
        forall|i: int| 0 <= i < n ==> #[trigger] a.record(i) == b.record(i),
    ensures
        skin_atoms(ar, a, domain, dim, swap, ghost_cutoff, n) == skin_atoms(
            ar,
            b,
            domain,
            dim,
            swap,
            ghost_cutoff,
            n,
        ),
    decreases n,
{
    if n > 0 {
        lemma_skin_alike(ar, a, b, domain, dim, swap, ghost_cutoff, n - 1);
        assert(a.record(n - 1) == b.record(n - 1));
        assert(a.record(n - 1).pos == a.pos@[n - 1]);
        assert(a.record(n - 1).cutoff_radius == a.cutoff_radius@[n - 1]);
    }
}

/// Every atom near the face is sent, and no other, each once and in order.
pub proof fn atoms_near_a_face_are_sent<F: Fn(Op, Scalar, Scalar, Scalar) -> Scalar>(
    ar: F,
    atoms: Atom,
    domain: Domain,
    dim: int,
    swap: int,
    ghost_cutoff: Scalar,
    n: int,
)
    requires
        0 <= n <= usize::MAX,
    ensures
        ({
            let sent = skin_atoms(ar, atoms, domain, dim, swap, ghost_cutoff, n);
            &&& forall|i: int|
                0 <= i < n ==> (sent.contains(i as usize) <==> #[trigger] in_skin(
                    ar,
                    atoms,
                    domain,
                    dim,
                    swap,
                    ghost_cutoff,
                    i,
                ))
            &&& forall|k: int| 0 <= k < sent.len() ==> #[trigger] sent[k] < n
            &&& forall|j: int, k: int| 0 <= j < k < sent.len() ==> #[trigger] sent[j] < #[trigger] sent[k]
        }),
    decreases n,
{
    if n > 0 {
        atoms_near_a_face_are_sent(ar, atoms, domain, dim, swap, ghost_cutoff, n - 1);
        let before: Seq<usize> = skin_atoms(ar, atoms, domain, dim, swap, ghost_cutoff, n - 1);
        let sent: Seq<usize> = skin_atoms(ar, atoms, domain, dim, swap, ghost_cutoff, n);
        assert forall|i: int| 0 <= i < n implies (sent.contains(i as usize) <==> #[trigger] in_skin(
            ar,
            atoms,
            domain,
            dim,
            swap,
            ghost_cutoff,
            i,
        )) by {
            if sent.contains(i as usize) {
                let k: int = choose|k: int| 0 <= k < sent.len() && sent[k] == i as usize;
                if k < before.len() {
                    assert(before[k] == i as usize);
                    assert(before.contains(i as usize));
                }
            }
            if in_skin(ar, atoms, domain, dim, swap, ghost_cutoff, i) {
                if i < n - 1 {
                    assert(before.contains(i as usize));
                    let k: int = choose|k: int| 0 <= k < before.len() && before[k] == i as usize;
                    assert(sent[k] == i as usize);
                } else {
                    assert(sent[sent.len() - 1] == i as usize);
                }
            }
        }
    }
}

/// One atom with its extension data, packed as a ghost.
pub open spec fn border_part<D: AtomData, F: Fn(Op, Scalar, Scalar, Scalar) -> Scalar>(
    ar: F,
    atoms: Atom,
    stores: Seq<Entry<D>>,
    by: Vec3,
    i: int,
) -> Seq<Scalar> {
    border_words(atoms, i, by, ar) + packed_rows(stores, i, stores.len() as int)
}

/// The parts of a border message.
pub open spec fn border_parts<D: AtomData, F: Fn(Op, Scalar, Scalar, Scalar) -> Scalar>(
    ar: F,
    atoms: Atom,
    stores: Seq<Entry<D>>,
    by: Vec3,
    indices: Seq<usize>,
) -> Seq<Seq<Scalar>> {
    Seq::new(indices.len(), |k: int| border_part(ar, atoms, stores, by, indices[k] as int))
}

/// Packs the atoms close to a face as ghosts for the neighbour behind it.
/// Returns their number.
pub fn pack_border_atoms<D: AtomData, F: Fn(Op, Scalar, Scalar, Scalar) -> Scalar>(
    atoms: &Atom,
    registry: &AtomDataRegistry<D>,
    dim: usize,
    swap: usize,
    periodic_offset: Scalar,
    domain: &Domain,
    send_buff: &mut Vec<Scalar>,
    packed_indices: &mut Vec<usize>,
    scan_end: usize,
    ghost_cutoff: Scalar,
    ar: &F,
) -> (r: i32)
    requires
        is_arithmetic(*ar),
        atoms.wf(),
        registry.wf(),
        dim < 3,
        scan_end <= atoms.records().len(),
        scan_end <= i32::MAX,
        forall|i: int| 0 <= i < scan_end ==> #[trigger] registry.accepts(i),
    ensures
        final(packed_indices)@ == skin_atoms(
            *ar,
            *atoms,
            *domain,
            dim as int,
            swap as int,
            ghost_cutoff,
            scan_end as int,
        ),
        r == final(packed_indices)@.len(),
        final(send_buff)@ == old(send_buff)@ + joined(
            border_parts(
                *ar,
                *atoms,
                registry.stores@,
                along(dim as int, product(*ar, periodic_offset, domain.size[dim as int])),
                final(packed_indices)@,
            ),
        ),
{
    let ghost before: Seq<Scalar> = send_buff@;
    packed_indices.clear();
    let lo_face: Scalar = domain.sub_domain_low[dim];
    let hi_face: Scalar = domain.sub_domain_high[dim];
    let use_fixed_cut: bool = Scalar::zero().lt(ghost_cutoff);
    let fixed_thresh: Scalar = if swap == 0 {
        plus(ar, lo_face, ghost_cutoff)
    } else {
        minus(ar, hi_face, ghost_cutoff)
    };
    let change_pos: Vec3 = offset_along(dim, times(ar, periodic_offset, domain.size[dim]));
    let mut count: i32 = 0;
    let mut i: usize = 0;
    proof {
        let none: Seq<usize> = Seq::empty();
        assert(packed_indices@ =~= none);
        assert(before + joined(
            border_parts(*ar, *atoms, registry.stores@, change_pos, none),
        ) =~= before);
    }
    while i < scan_end
        invariant
            is_arithmetic(*ar),
            atoms.wf(),
            registry.wf(),
            dim < 3,
            i <= scan_end <= atoms.records().len(),
            scan_end <= i32::MAX,
            forall|k: int| 0 <= k < scan_end ==> #[trigger] registry.accepts(k),
            lo_face == domain.sub_domain_low[dim as int],
            hi_face == domain.sub_domain_high[dim as int],
            use_fixed_cut == Scalar::zero().below(ghost_cutoff),
            fixed_thresh == if swap == 0 {
                sum(*ar, lo_face, ghost_cutoff)
            } else {
                difference(*ar, hi_face, ghost_cutoff)
            },
            packed_indices@ == skin_atoms(
                *ar,
                *atoms,
                *domain,
                dim as int,
                swap as int,
                ghost_cutoff,
                i as int,
            ),
            count == packed_indices@.len(),
            count <= i,
            send_buff@ == before + joined(
                border_parts(*ar, *atoms, registry.stores@, change_pos, packed_indices@),
            ),
        decreases scan_end - i,
    {
        let pos_dim: Scalar = atoms.pos_component(i, dim);
        let near: bool = if use_fixed_cut {
            if swap == 0 {
                pos_dim.lt(fixed_thresh)
            } else {
                pos_dim.ge(fixed_thresh)
            }
        } else {
            let cut: Scalar = times(ar, atoms.cutoff_radius[i], Scalar::four());
            if swap == 0 {
                pos_dim.lt(plus(ar, lo_face, cut))
            } else {
                pos_dim.ge(minus(ar, hi_face, cut))
            }
        };
        if near {
            assert(registry.accepts(i as int));
            let ghost list: Seq<usize> = packed_indices@;
            atoms.pack_border(i, change_pos, send_buff, ar);
            registry.pack_all(i, send_buff);
            packed_indices.push(i);
            count = count + 1;
            proof {
                let parts: Seq<Seq<Scalar>> = border_parts(
                    *ar,
                    *atoms,
                    registry.stores@,
                    change_pos,
                    list,
                );
                let part: Seq<Scalar> = border_part(
                    *ar,
                    *atoms,
                    registry.stores@,
                    change_pos,
                    i as int,
                );
                lemma_flat_push(parts, part);
                assert(border_parts(*ar, *atoms, registry.stores@, change_pos, list.push(i))
                    =~= parts.push(part));
                assert(send_buff@ =~= before + (joined(parts) + part));
            }
        }
        i = i + 1;
    }
    count
}

} // verus!

//! What is packed on one process is what the other process reads.

use crate::atom::ATOM_PACK_SIZE;
use crate::atom_data::{
    packed_column, packed_row, packed_rows, read_chain, readable_all, readable_chain, taken_upto,
    AtomData, Entry,
};
use crate::ghosts::{atom_start, readable_atoms, row_in_message};
use crate::scalar::Scalar;
use vstd::prelude::*;

verus! {

/// The first `k` parts, one after the other.
pub open spec fn flat<T>(parts: Seq<Seq<T>>, k: int) -> Seq<T>
    decreases k,
{
    if k <= 0 {
        Seq::empty()
    } else {
        flat(parts, k - 1) + parts[k - 1]
    }
}

/// All parts, one after the other.
pub open spec fn joined<T>(parts: Seq<Seq<T>>) -> Seq<T> {
    flat(parts, parts.len() as int)
}

proof fn lemma_flat_prefix<T>(parts: Seq<Seq<T>>, k: int, n: int)
    requires
        0 <= k <= n,
    ensures
        flat(parts, k).len() <= flat(parts, n).len(),
        flat(parts, n).take(flat(parts, k).len() as int) == flat(parts, k),
    decreases n - k,
{
    if k < n {
        lemma_flat_prefix(parts, k, n - 1);
        assert(flat(parts, n).take(flat(parts, k).len() as int) =~= flat(parts, n - 1).take(
            flat(parts, k).len() as int,
        ));
    } else {
        assert(flat(parts, n).take(flat(parts, n).len() as int) =~= flat(parts, n));
    }
}

/// Behind the first `k` parts comes part `k`.
proof fn lemma_flat_at<T>(parts: Seq<Seq<T>>, k: int, n: int)
    requires
        0 <= k < n,
    ensures
        flat(parts, n).skip(flat(parts, k).len() as int) == parts[k] + flat(parts, n).skip(
            flat(parts, k + 1).len() as int,
        ),
        flat(parts, k + 1).len() <= flat(parts, n).len(),
{
    lemma_flat_prefix(parts, k, n);
    lemma_flat_prefix(parts, k + 1, n);
    let all: Seq<T> = flat(parts, n);
    let a: int = flat(parts, k).len() as int;
    let b: int = flat(parts, k + 1).len() as int;
    assert forall|i: int| 0 <= i < parts[k].len() implies all[a + i] == parts[k][i] by {
        assert(all.take(b)[a + i] == flat(parts, k + 1)[a + i]);
    }
    assert(all.skip(a) =~= parts[k] + all.skip(b));
}

/// Among equally long parts, part `k` begins at `k` times the length.
pub proof fn lemma_even_parts<T>(parts: Seq<Seq<T>>, stride: int, k: int, j: int)
    requires
        0 <= k < parts.len(),
        0 <= j < stride,
        forall|m: int| 0 <= m < parts.len() ==> (#[trigger] parts[m]).len() == stride,
    ensures
        joined(parts)[k * stride + j] == parts[k][j],
        0 <= k * stride + j < joined(parts).len(),
{
    lemma_even_len(parts, stride, k);
    lemma_even_len(parts, stride, parts.len() as int);
    lemma_flat_at(parts, k, parts.len() as int);
    let all: Seq<T> = joined(parts);
    let at: int = flat(parts, k).len() as int;
    assert(all.skip(at)[j] == parts[k][j]);
}

pub proof fn lemma_even_len<T>(parts: Seq<Seq<T>>, stride: int, k: int)
    requires
        0 <= k <= parts.len(),
        forall|m: int| 0 <= m < parts.len() ==> (#[trigger] parts[m]).len() == stride,
    ensures
        flat(parts, k).len() == k * stride,
    decreases k,
{
    if k > 0 {
        lemma_even_len(parts, stride, k - 1);
        assert(k * stride == (k - 1) * stride + stride) by (nonlinear_arith);
    } else {
        assert(0 * stride == 0);
    }
}

/// Appending a part.
pub proof fn lemma_flat_push<T>(parts: Seq<Seq<T>>, part: Seq<T>)
    ensures
        joined(parts.push(part)) == joined(parts) + part,
{
    lemma_flat_same(parts.push(part), parts, parts.len() as int);
}

proof fn lemma_flat_same<T>(a: Seq<Seq<T>>, b: Seq<Seq<T>>, k: int)
    requires
        0 <= k <= a.len(),
        k <= b.len(),
        forall|i: int| 0 <= i < k ==> a[i] == b[i],
    ensures
        flat(a, k) == flat(b, k),
    decreases k,
{
    if k > 0 {
        lemma_flat_same(a, b, k - 1);
    }
}

/// The rows that the stores pack for one atom.
pub open spec fn store_parts<D: AtomData>(stores: Seq<Entry<D>>, i: int) -> Seq<Seq<Scalar>> {
    Seq::new(stores.len(), |s: int| packed_row(stores[s].data, i))
}

proof fn lemma_store_parts<D: AtomData>(stores: Seq<Entry<D>>, i: int, k: int)
    requires
        0 <= k <= stores.len(),
    ensures
        packed_rows(stores, i, k) == flat(store_parts(stores, i), k),
    decreases k,
{
    if k > 0 {
        lemma_store_parts(stores, i, k - 1);
    }
}

/// Both registries hold the same kinds of stores, in the same order.
pub open spec fn matching<D: AtomData>(a: Seq<Entry<D>>, b: Seq<Entry<D>>) -> bool {
    &&& a.len() == b.len()
    &&& forall|s: int| 0 <= s < a.len() ==> (#[trigger] a[s]).data.shape() == b[s].data.shape()
}

/// Every store is valid and has a record for atom `i`.
pub open spec fn holds_atom<D: AtomData>(stores: Seq<Entry<D>>, i: int) -> bool {
    forall|s: int|
        0 <= s < stores.len() ==> (#[trigger] stores[s]).data.valid() && 0 <= i
            < stores[s].data.rows().len()
}

/// What all stores of one process pack for an atom, the matching stores of
/// another process read: every record, and nothing beyond.
pub proof fn extension_data_travels<D: AtomData>(
    from: Seq<Entry<D>>,
    to: Seq<Entry<D>>,
    i: int,
    rest: Seq<Scalar>,
    k: int,
)
    requires
        matching(from, to),
        holds_atom(from, i),
        0 <= k <= from.len(),
    ensures
        ({
            let buf = packed_rows(from, i, from.len() as int) + rest;
            &&& taken_upto(to, buf, k) == packed_rows(from, i, k).len()
            &&& forall|s: int|
                0 <= s < k ==> {
                    &&& D::readable(
                        (#[trigger] to[s]).data.shape(),
                        buf.skip(taken_upto(to, buf, s) as int),
                    )
                    &&& D::read(to[s].data.shape(), buf.skip(taken_upto(to, buf, s) as int))
                        == from[s].data.rows()[i]
                }
            &&& k == from.len() ==> readable_all(to, buf)
        }),
    decreases k,
{
    let n: int = from.len() as int;
    let parts: Seq<Seq<Scalar>> = store_parts(from, i);
    let buf: Seq<Scalar> = packed_rows(from, i, n) + rest;
    lemma_store_parts(from, i, n);
    if k > 0 {
        extension_data_travels(from, to, i, rest, k - 1);
        lemma_store_parts(from, i, k - 1);
        lemma_store_parts(from, i, k);
        lemma_flat_at(parts, k - 1, n);
        let at: int = flat(parts, k - 1).len() as int;
        let row: Seq<Scalar> = from[k - 1].data.rows()[i];
        let later: Seq<Scalar> = flat(parts, n).skip(flat(parts, k).len() as int) + rest;
        assert(parts[k - 1] == row);
        assert(buf.skip(at) =~= flat(parts, n).skip(at) + rest) by {
            lemma_flat_prefix(parts, k - 1, n);
        }
        assert(buf.skip(at) =~= row + later);
        from[k - 1].data.record_round_trip(i, later);
        assert(from[k - 1].data.shape() == to[k - 1].data.shape());
    }
}

/// Each part is an atom of the fixed length with the records that the stores
/// of the sender hold for it.
pub open spec fn atom_parts<D: AtomData>(
    parts: Seq<Seq<Scalar>>,
    heads: Seq<Seq<Scalar>>,
    from: Seq<Entry<D>>,
    indices: Seq<int>,
) -> bool {
    &&& parts.len() == heads.len() == indices.len()
    &&& forall|j: int|
        0 <= j < parts.len() ==> {
            &&& #[trigger] parts[j] == heads[j] + packed_rows(from, indices[j], from.len() as int)
            &&& heads[j].len() == ATOM_PACK_SIZE
            &&& holds_atom(from, indices[j])
        }
}

/// Atoms that are packed one after the other are read one after the other:
/// the receiver finds each atom where the sender put it, and its stores
/// receive the rows that the sender's stores held.
pub proof fn atoms_travel<D: AtomData>(
    parts: Seq<Seq<Scalar>>,
    heads: Seq<Seq<Scalar>>,
    from: Seq<Entry<D>>,
    to: Seq<Entry<D>>,
    indices: Seq<int>,
    k: int,
)
    requires
        matching(from, to),
        atom_parts(parts, heads, from, indices),
        0 <= k <= parts.len(),
    ensures
        ({
            let data = joined(parts);
            &&& atom_start(to, data, k) == flat(parts, k).len()
            &&& readable_atoms(to, data, k)
            &&& forall|j: int|
                0 <= j < k ==> (#[trigger] data.skip(atom_start(to, data, j))).take(
                    ATOM_PACK_SIZE as int,
                ) == heads[j]
            &&& forall|j: int, s: int|
                0 <= j < k && 0 <= s < from.len() ==> #[trigger] row_in_message(to, data, j, s)
                    == from[s].data.rows()[indices[j]]
        }),
    decreases k,
{
    let data: Seq<Scalar> = joined(parts);
    let n: int = parts.len() as int;
    if k > 0 {
        let j: int = k - 1;
        atoms_travel(parts, heads, from, to, indices, j);
        lemma_flat_at(parts, j, n);
        let at: int = flat(parts, j).len() as int;
        let head: Seq<Scalar> = heads[j];
        let rows: Seq<Scalar> = packed_rows(from, indices[j], from.len() as int);
        let later: Seq<Scalar> = data.skip(flat(parts, k).len() as int);
        assert(parts[j] == head + rows);
        assert(data.skip(at) == (head + rows) + later);
        assert(data.skip(at).take(ATOM_PACK_SIZE as int) =~= head);
        assert(data.skip(at).skip(ATOM_PACK_SIZE as int) =~= rows + later);
        assert(data.skip(at + ATOM_PACK_SIZE) =~= data.skip(at).skip(ATOM_PACK_SIZE as int));
        extension_data_travels(from, to, indices[j], later, from.len() as int);
        assert(flat(parts, k).len() == at + ATOM_PACK_SIZE + rows.len());
        assert forall|s: int| 0 <= s < from.len() implies #[trigger] row_in_message(to, data, j, s)
            == from[s].data.rows()[indices[j]] by {
            assert(from[s].data.shape() == to[s].data.shape());
        }
    }
}

/// Rows that are saved and read back are the rows again.
pub proof fn restart_round_trip<D: AtomData>(d: D, n: int, k: int)
    requires
        d.valid(),
        0 <= k <= n <= d.rows().len(),
        forall|i: int| 0 <= i < n ==> (#[trigger] d.rows()[i]).len() > 0,
    ensures
        ({
            let tail = packed_column(d, n).skip(packed_column(d, k).len() as int);
            &&& packed_column(d, k).len() <= packed_column(d, n).len()
            &&& readable_chain::<D>(d.shape(), tail)
            &&& read_chain::<D>(d.shape(), tail) == d.rows().subrange(k, n)
        }),
    decreases n - k,
{
    let rows: Seq<Seq<Scalar>> = d.rows();
    lemma_column_is_flat(d, n);
    lemma_column_is_flat(d, k);
    lemma_flat_prefix(rows, k, n);
    let all: Seq<Scalar> = packed_column(d, n);
    let tail: Seq<Scalar> = all.skip(packed_column(d, k).len() as int);
    if k == n {
        assert(tail.len() == 0);
        assert(read_chain::<D>(d.shape(), tail) =~= rows.subrange(k, n));
    } else {
        restart_round_trip(d, n, k + 1);
        lemma_column_is_flat(d, k + 1);
        lemma_flat_at(rows, k, n);
        let later: Seq<Scalar> = all.skip(packed_column(d, k + 1).len() as int);
        assert(tail == rows[k] + later);
        d.record_round_trip(k, later);
        assert(tail.skip(rows[k].len() as int) =~= later);
        assert(rows.subrange(k, n) =~= seq![rows[k]] + rows.subrange(k + 1, n));
    }
}

proof fn lemma_column_is_flat<D: AtomData>(d: D, k: int)
    requires
        0 <= k <= d.rows().len(),
    ensures
        packed_column(d, k) == flat(d.rows(), k),
    decreases k,
{
    if k > 0 {
        lemma_column_is_flat(d, k - 1);
    }
}

} // verus!

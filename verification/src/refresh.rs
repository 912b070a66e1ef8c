//! Keeping existing ghosts up to date, and returning forces to their owners.

use crate::atom::{holds_triple, moved, Atom, Record};
use crate::atom_data::{
    forward_row, forward_upto, forward_words, reverse_received, reverse_row, reverse_upto, reverse_words, AtomData,
    AtomDataRegistry, Entry,
};
use crate::comm::{aggregatable, round_aggregatable, SwapData};
use crate::scalar::{is_arithmetic, plus, sum, summing, Op, Scalar, Vec3};
use crate::transport::{joined, lemma_even_len, lemma_even_parts, lemma_flat_push};
use vstd::prelude::*;

verus! {

/// The values that every ghost receives: its position and its velocity.
pub const FORWARD_PACK_SIZE: usize = 6;

/// What owner `i` sends to a ghost that lies `by` away.
pub open spec fn forward_part<D: AtomData, F: Fn(Op, Scalar, Scalar, Scalar) -> Scalar>(
    ar: F,
    atoms: Atom,
    stores: Seq<Entry<D>>,
    by: Vec3,
    i: int,
) -> Seq<Scalar> {
    moved(ar, atoms.pos@[i], by) + seq![
        atoms.vel@[i][0],
        atoms.vel@[i][1],
        atoms.vel@[i][2],
    ] + forward_words(stores, i, stores.len() as int)
}

/// What the owners in `indices` send.
pub open spec fn forward_parts<D: AtomData, F: Fn(Op, Scalar, Scalar, Scalar) -> Scalar>(
    ar: F,
    atoms: Atom,
    stores: Seq<Entry<D>>,
    by: Vec3,
    indices: Seq<usize>,
) -> Seq<Seq<Scalar>> {
    Seq::new(indices.len(), |k: int| forward_part(ar, atoms, stores, by, indices[k] as int))
}

/// Every index names an atom.
pub open spec fn indices_fit(indices: Seq<usize>, n: int) -> bool {
    forall|k: int| 0 <= k < indices.len() ==> #[trigger] indices[k] < n
}

/// Packs what the owners of a swap send to their ghosts.
pub fn pack_forward_into<D: AtomData, F: Fn(Op, Scalar, Scalar, Scalar) -> Scalar>(
    swap: &SwapData,
    buf: &mut Vec<Scalar>,
    atoms: &Atom,
    registry: &AtomDataRegistry<D>,
    ar: &F,
)
    requires
        is_arithmetic(*ar),
        atoms.wf(),
        registry.wf(),
        registry.parallel_to(atoms.records().len() as int),
        indices_fit(swap.send_indices@, atoms.records().len() as int),
    ensures
        final(buf)@ == old(buf)@ + joined(
            forward_parts(
                *ar,
                *atoms,
                registry.stores@,
                swap.periodic_offset,
                swap.send_indices@,
            ),
        ),
        final(buf)@.len() == old(buf)@.len() + swap.send_indices@.len() * (FORWARD_PACK_SIZE
            + forward_upto(registry.stores@, registry.stores@.len() as int)),
{
    let ghost before: Seq<Scalar> = buf@;
    let ghost stores: Seq<Entry<D>> = registry.stores@;
    let ghost stride: int = FORWARD_PACK_SIZE + forward_upto(stores, stores.len() as int);
    let offset: Vec3 = swap.periodic_offset;
    let mut k: usize = 0;
    proof {
        let none: Seq<usize> = swap.send_indices@.take(0);
        assert(before + joined(forward_parts(*ar, *atoms, stores, offset, none)) =~= before);
        assert(0 * stride == 0);
    }
    while k < swap.send_indices.len()
        invariant
            is_arithmetic(*ar),
            atoms.wf(),
            registry.wf(),
            registry.parallel_to(atoms.records().len() as int),
            indices_fit(swap.send_indices@, atoms.records().len() as int),
            stores == registry.stores@,
            stride == FORWARD_PACK_SIZE + forward_upto(stores, stores.len() as int),
            k <= swap.send_indices@.len(),
            buf@ == before + joined(
                forward_parts(*ar, *atoms, stores, offset, swap.send_indices@.take(k as int)),
            ),
            buf@.len() == before.len() + k * stride,
        decreases swap.send_indices.len() - k,
    {
        let idx: usize = swap.send_indices[k];
        let ghost mid: Seq<Scalar> = buf@;
        let pos: Vec3 = atoms.pos[idx];
        let vel: Vec3 = atoms.vel[idx];
        buf.push(plus(ar, pos[0], offset[0]));
        buf.push(plus(ar, pos[1], offset[1]));
        buf.push(plus(ar, pos[2], offset[2]));
        buf.push(vel[0]);
        buf.push(vel[1]);
        buf.push(vel[2]);
        registry.pack_forward_all(idx, buf);
        proof {
            let list: Seq<usize> = swap.send_indices@.take(k as int);
            let parts: Seq<Seq<Scalar>> = forward_parts(*ar, *atoms, stores, offset, list);
            let part: Seq<Scalar> = forward_part(*ar, *atoms, stores, offset, idx as int);
            assert(buf@ =~= mid + part);
            lemma_flat_push(parts, part);
            assert(forward_parts(
                *ar,
                *atoms,
                stores,
                offset,
                swap.send_indices@.take(k + 1),
            ) =~= parts.push(part));
            assert(buf@ =~= before + (joined(parts) + part));
            assert((k + 1) * stride == k * stride + stride) by (nonlinear_arith);
        }
        k = k + 1;
    }
    assert(swap.send_indices@.take(k as int) =~= swap.send_indices@);
}

/// Ghost `rec` after it received the values that begin at `base`.
pub open spec fn refreshed(rec: Record, new: Record, msg: Seq<Scalar>, base: int) -> bool {
    &&& new == Record { pos: new.pos, vel: new.vel, ..rec }
    &&& holds_triple(new.pos, msg, base)
    &&& holds_triple(new.vel, msg, base + 3)
}

/// The rows of store `s` after the ghosts from `start` on received a message.
pub open spec fn refreshed_rows<D: AtomData>(
    stores: Seq<Entry<D>>,
    msg: Seq<Scalar>,
    start: int,
    count: int,
    s: int,
) -> Seq<Seq<Scalar>> {
    let d: D = stores[s].data;
    let stride: int = FORWARD_PACK_SIZE + forward_upto(stores, stores.len() as int);
    Seq::new(
        d.rows().len(),
        |i: int|
            if start <= i < start + count {
                let at = (i - start) * stride + FORWARD_PACK_SIZE;
                D::with_forward(
                    d.shape(),
                    d.rows()[i],
                    msg.subrange(
                        at + forward_upto(stores, s),
                        at + forward_upto(stores, s + 1),
                    ),
                )
            } else {
                d.rows()[i]
            },
    )
}

pub proof fn lemma_upto_alike<D: AtomData>(a: Seq<Entry<D>>, b: Seq<Entry<D>>, k: int)
    requires
        0 <= k <= a.len() == b.len(),
        forall|s: int| 0 <= s < a.len() ==> (#[trigger] a[s]).data.shape() == b[s].data.shape(),
    ensures
        forward_upto(a, k) == forward_upto(b, k),
        reverse_upto(a, k) == reverse_upto(b, k),
        forward_upto(a, k) <= forward_upto(a, a.len() as int),
        reverse_upto(a, k) <= reverse_upto(a, a.len() as int),
    decreases k,
{
    if k > 0 {
        lemma_upto_alike(a, b, k - 1);
        assert(a[k - 1].data.shape() == b[k - 1].data.shape());
    }
    lemma_upto_grows(a, k, a.len() as int);
}

proof fn lemma_upto_grows<D: AtomData>(a: Seq<Entry<D>>, j: int, k: int)
    requires
        0 <= j <= k,
    ensures
        forward_upto(a, j) <= forward_upto(a, k),
        reverse_upto(a, j) <= reverse_upto(a, k),
    decreases k - j,
{
    if j < k {
        lemma_upto_grows(a, j, k - 1);
    }
}

/// One more ghost receives its values.
proof fn lemma_refreshed_step<D: AtomData>(
    stores: Seq<Entry<D>>,
    msg: Seq<Scalar>,
    start: int,
    k: int,
    s: int,
    at: int,
)
    requires
        0 <= k,
        0 <= start,
        start + k < stores[s].data.rows().len(),
        at == k * (FORWARD_PACK_SIZE + forward_upto(stores, stores.len() as int))
            + FORWARD_PACK_SIZE,
    ensures
        refreshed_rows(stores, msg, start, k + 1, s) == refreshed_rows(stores, msg, start, k, s).update(
            start + k,
            D::with_forward(
                stores[s].data.shape(),
                stores[s].data.rows()[start + k],
                msg.subrange(
                    at + forward_upto(stores, s),
                    at + forward_upto(stores, s + 1),
                ),
            ),
        ),
        refreshed_rows(stores, msg, start, k, s)[start + k] == stores[s].data.rows()[start + k],
        refreshed_rows(stores, msg, start, k, s).len() == stores[s].data.rows().len(),
{
    assert(start + k - start == k);
    assert(refreshed_rows(stores, msg, start, k + 1, s) =~= refreshed_rows(
        stores,
        msg,
        start,
        k,
        s,
    ).update(
        start + k,
        D::with_forward(
            stores[s].data.shape(),
            stores[s].data.rows()[start + k],
            msg.subrange(at + forward_upto(stores, s), at + forward_upto(stores, s + 1)),
        ),
    ));
}

/// The ghosts from `start` on received `msg`; everything else is as it was.
pub open spec fn forward_taken<D: AtomData>(
    atoms: Atom,
    registry: AtomDataRegistry<D>,
    new: Atom,
    new_registry: AtomDataRegistry<D>,
    start: int,
    count: int,
    msg: Seq<Scalar>,
) -> bool {
    let extra: nat = forward_upto(registry.stores@, registry.stores@.len() as int);
    &&& new.same_header(&atoms)
    &&& new_registry.same_stores(&registry)
    &&& new.records().len() == atoms.records().len()
    &&& forall|i: int|
        0 <= i < atoms.records().len() && !(start <= i < start + count) ==> #[trigger] new.record(i)
            == atoms.record(i)
    &&& forall|i: int|
        start <= i < start + count ==> refreshed(
            atoms.record(i),
            #[trigger] new.record(i),
            msg,
            (i - start) * (FORWARD_PACK_SIZE + extra),
        )
    &&& forall|s: int|
        0 <= s < registry.stores@.len() ==> (#[trigger] new_registry.stores@[s]).data.rows()
            == if extra > 0 {
            refreshed_rows(registry.stores@, msg, start, count, s)
        } else {
            registry.stores@[s].data.rows()
        }
}

/// Gives `recv_count` ghosts from `recv_start` on the values of a message.
#[verifier::rlimit(40)]
pub fn unpack_forward<D: AtomData>(
    msg: &[Scalar],
    atoms: &mut Atom,
    registry: &mut AtomDataRegistry<D>,
    recv_start: usize,
    recv_count: usize,
    extra_per_atom: usize,
)
    requires
        old(atoms).wf(),
        old(registry).wf(),
        old(registry).parallel_to(old(atoms).records().len() as int),
        recv_start + recv_count <= old(atoms).records().len(),
        extra_per_atom == forward_upto(
            old(registry).stores@,
            old(registry).stores@.len() as int,
        ),
        recv_count * (FORWARD_PACK_SIZE + extra_per_atom) <= msg@.len(),
    ensures
        final(atoms).wf(),
        final(registry).wf(),
        final(registry).parallel_to(final(atoms).records().len() as int),
        forward_taken(
            *old(atoms),
            *old(registry),
            *final(atoms),
            *final(registry),
            recv_start as int,
            recv_count as int,
            msg@,
        ),
{
    let ghost start: Atom = *atoms;
    let ghost stores: Seq<Entry<D>> = registry.stores@;
    let ghost stride: int = FORWARD_PACK_SIZE + extra_per_atom;
    let total: usize = atoms.len();
    let ghost n: int = total as int;
    let mut base: usize = 0;
    let mut k: usize = 0;
    proof {
        assert forall|s: int| 0 <= s < stores.len() implies (
        #[trigger] registry.stores@[s]).data.rows() == if extra_per_atom > 0 {
            refreshed_rows(stores, msg@, recv_start as int, 0, s)
        } else {
            stores[s].data.rows()
        } by {
            assert(refreshed_rows(stores, msg@, recv_start as int, 0, s) =~= stores[s].data.rows());
        }
        assert(0 * stride == 0);
    }
    while k < recv_count
        invariant
            k <= recv_count,
            start == *old(atoms),
            start.wf(),
            stores == old(registry).stores@,
            stride == FORWARD_PACK_SIZE + extra_per_atom,
            n == start.records().len(),
            n == total,
            extra_per_atom == forward_upto(stores, stores.len() as int),
            recv_start + recv_count <= n,
            recv_count * stride <= msg@.len(),
            base == k * stride,
            base <= msg@.len(),
            atoms.wf(),
            registry.wf(),
            old(registry).parallel_to(n),
            registry.parallel_to(n),
            atoms.same_header(&start),
            registry.same_stores(old(registry)),
            atoms.records().len() == n,
            atoms.tag@ == start.tag@,
            atoms.atom_type@ == start.atom_type@,
            atoms.origin_index@ == start.origin_index@,
            atoms.is_ghost@ == start.is_ghost@,
            atoms.force@ == start.force@,
            atoms.cutoff_radius@ == start.cutoff_radius@,
            atoms.mass@ == start.mass@,
            atoms.inv_mass@ == start.inv_mass@,
            atoms.image@ == start.image@,
            forall|i: int|
                0 <= i < n && !(recv_start <= i < recv_start + k) ==> (#[trigger] atoms.pos@[i])
                    == start.pos@[i],
            forall|i: int|
                0 <= i < n && !(recv_start <= i < recv_start + k) ==> (#[trigger] atoms.vel@[i])
                    == start.vel@[i],
            forall|i: int|
                recv_start <= i < recv_start + k ==> holds_triple(
                    #[trigger] atoms.pos@[i],
                    msg@,
                    (i - recv_start) * stride,
                ),
            forall|i: int|
                recv_start <= i < recv_start + k ==> holds_triple(
                    #[trigger] atoms.vel@[i],
                    msg@,
                    (i - recv_start) * stride + 3,
                ),
            forall|s: int|
                0 <= s < stores.len() ==> (#[trigger] registry.stores@[s]).data.rows()
                    == if extra_per_atom > 0 {
                    refreshed_rows(stores, msg@, recv_start as int, k as int, s)
                } else {
                    stores[s].data.rows()
                },
        decreases recv_count - k,
    {
        proof {
            assert(k * stride + stride <= recv_count * stride && (k + 1) * stride == k * stride
                + stride) by (nonlinear_arith)
                requires
                    k < recv_count,
                    stride >= 0,
            ;
        }
        let i: usize = recv_start + k;
        let pos: Vec3 = [msg[base], msg[base + 1], msg[base + 2]];
        let vel: Vec3 = [msg[base + 3], msg[base + 4], msg[base + 5]];
        atoms.pos.set(i, pos);
        atoms.vel.set(i, vel);
        if extra_per_atom > 0 {
            let ghost now: Seq<Entry<D>> = registry.stores@;
            let tail: &[Scalar] = vstd::slice::slice_subrange(
                msg,
                base + FORWARD_PACK_SIZE,
                msg.len(),
            );
            proof {
                assert forall|s: int| 0 <= s < stores.len() implies (
                #[trigger] stores[s]).data.shape() == now[s].data.shape() by {
                    assert(now[s].key == stores[s].key);
                }
                lemma_upto_alike(stores, now, stores.len() as int);
            }
            let _used: usize = registry.unpack_forward_all(i, tail);
            proof {
                assert forall|s: int| 0 <= s < stores.len() implies (
                #[trigger] registry.stores@[s]).data.rows() == refreshed_rows(
                    stores,
                    msg@,
                    recv_start as int,
                    k + 1,
                    s,
                ) by {
                    lemma_upto_alike(stores, now, s);
                    lemma_upto_alike(stores, now, s + 1);
                    lemma_upto_grows(stores, s, s + 1);
                    assert(now[s].key == stores[s].key);
                    assert(stores[s].data.rows().len() == n);
                    assert(now[s].data.rows() == refreshed_rows(
                        stores,
                        msg@,
                        recv_start as int,
                        k as int,
                        s,
                    ));
                    let at: int = base + FORWARD_PACK_SIZE;
                    assert(tail@.subrange(
                        forward_upto(now, s) as int,
                        forward_upto(now, s + 1) as int,
                    ) =~= msg@.subrange(
                        at + forward_upto(stores, s),
                        at + forward_upto(stores, s + 1),
                    ));
                    lemma_refreshed_step(stores, msg@, recv_start as int, k as int, s, at);
                }
            }
        }
        base = base + (FORWARD_PACK_SIZE + extra_per_atom);
        k = k + 1;
    }
}

/// A message to be sent while another is received.
pub struct Message {
    pub dest: i32,
    pub source: i32,
    pub send: Vec<Scalar>,
    pub recv_len: usize,
}

/// What becomes of a swap of a forward round: a message to be sent, or, where
/// the process sends to itself, ghosts that were refreshed at once.
pub open spec fn forward_prepared<D: AtomData, F: Fn(Op, Scalar, Scalar, Scalar) -> Scalar>(
    ar: F,
    swap: SwapData,
    rank: i32,
    atoms: Atom,
    registry: AtomDataRegistry<D>,
    new: Atom,
    new_registry: AtomDataRegistry<D>,
    message: Option<Message>,
) -> bool {
    let extra: nat = forward_upto(registry.stores@, registry.stores@.len() as int);
    let words: Seq<Scalar> = joined(
        forward_parts(ar, atoms, registry.stores@, swap.periodic_offset, swap.send_indices@),
    );
    &&& message is Some <==> swap.to_proc != rank
    &&& match message {
        Some(m) => {
            &&& m.dest == swap.to_proc
            &&& m.source == swap.from_proc
            &&& m.send@ == words
            &&& m.recv_len == if swap.from_proc != -1 {
                swap.recv_count * (FORWARD_PACK_SIZE + extra)
            } else {
                0
            }
            &&& new == atoms
            &&& new_registry == registry
        },
        None => forward_taken(
            atoms,
            registry,
            new,
            new_registry,
            swap.recv_start as int,
            swap.recv_count as int,
            words,
        ),
    }
}

/// Prepares one swap of a forward round. A swap with itself is carried out at
/// once; any other becomes a message.
pub fn forward_prepare_swap<D: AtomData, F: Fn(Op, Scalar, Scalar, Scalar) -> Scalar>(
    swap: &SwapData,
    atoms: &mut Atom,
    registry: &mut AtomDataRegistry<D>,
    rank: i32,
    extra: usize,
    ar: &F,
) -> (r: Option<Message>)
    requires
        is_arithmetic(*ar),
        old(atoms).wf(),
        old(registry).wf(),
        old(registry).parallel_to(old(atoms).records().len() as int),
        indices_fit(swap.send_indices@, old(atoms).records().len() as int),
        extra == forward_upto(old(registry).stores@, old(registry).stores@.len() as int),
        swap.recv_count * (FORWARD_PACK_SIZE + extra) <= usize::MAX,
        swap.recv_start + swap.recv_count <= old(atoms).records().len(),
        swap.to_proc == rank ==> swap.recv_count <= swap.send_indices@.len(),
    ensures
        final(atoms).wf(),
        final(registry).wf(),
        final(registry).parallel_to(final(atoms).records().len() as int),
        forward_prepared(
            *ar,
            *swap,
            rank,
            *old(atoms),
            *old(registry),
            *final(atoms),
            *final(registry),
            r,
        ),
{
    let mut send: Vec<Scalar> = Vec::new();
    pack_forward_into(swap, &mut send, atoms, registry, ar);
    proof {
        assert(send@ =~= joined(
            forward_parts(
                *ar,
                *old(atoms),
                old(registry).stores@,
                swap.periodic_offset,
                swap.send_indices@,
            ),
        ));
    }
    if swap.to_proc == rank {
        proof {
            let stride: int = FORWARD_PACK_SIZE + extra;
            assert(swap.recv_count * stride <= swap.send_indices@.len() * stride) by (nonlinear_arith)
                requires
                    swap.recv_count <= swap.send_indices@.len(),
                    stride >= 0,
            ;
        }
        unpack_forward(
            send.as_slice(),
            atoms,
            registry,
            swap.recv_start,
            swap.recv_count,
            extra,
        );
        return None;
    }
    let recv_len: usize = if swap.from_proc != -1 {
        proof {
            let stride: int = FORWARD_PACK_SIZE + extra;
            if swap.recv_count > 0 {
                assert(stride <= swap.recv_count * stride) by (nonlinear_arith)
                    requires
                        swap.recv_count >= 1,
                        stride >= 0,
                ;
            }
        }
        if swap.recv_count == 0 {
            0
        } else {
            swap.recv_count * (FORWARD_PACK_SIZE + extra)
        }
    } else {
        0
    };
    Some(Message { dest: swap.to_proc, source: swap.from_proc, send, recv_len })
}

/// Consecutive swaps that are carried out together, in one message if
/// `aggregated`.
#[derive(Clone, Copy, PartialEq, Eq, Structural, Debug)]
pub struct Round {
    pub start: usize,
    pub end: usize,
    pub aggregated: bool,
}

/// Two swaps share a message exactly where the round has two and they can.
pub open spec fn round_ok(swaps: Seq<SwapData>, rank: i32, r: Round) -> bool {
    &&& r.start < r.end <= swaps.len()
    &&& r.end <= r.start + 2
    &&& r.aggregated == (r.end == r.start + 2 && aggregatable(
        swaps[r.start as int],
        swaps[r.start + 1],
        rank,
    ))
}

/// The rounds of a forward pass: two swaps each, from the first on.
pub fn forward_rounds(swaps: &Vec<SwapData>, rank: i32) -> (r: Vec<Round>)
    ensures
        r@.len() == (swaps@.len() + 1) / 2,
        forall|k: int|
            0 <= k < r@.len() ==> {
                &&& round_ok(swaps@, rank, #[trigger] r@[k])
                &&& r@[k].start == 2 * k
                &&& r@[k].end == if 2 * k + 2 <= swaps@.len() {
                    2 * k + 2
                } else {
                    swaps@.len() as int
                }
            },
{
    let mut out: Vec<Round> = Vec::new();
    let mut start: usize = 0;
    while start < swaps.len()
        invariant
            start <= swaps@.len(),
            start == 2 * out@.len() || (start == swaps@.len() && start + 1 == 2 * out@.len()),
            forall|k: int|
                0 <= k < out@.len() ==> {
                    &&& round_ok(swaps@, rank, #[trigger] out@[k])
                    &&& out@[k].start == 2 * k
                    &&& out@[k].end == if 2 * k + 2 <= swaps@.len() {
                        2 * k + 2
                    } else {
                        swaps@.len() as int
                    }
                },
        decreases swaps.len() - start,
    {
        let end: usize = if swaps.len() - start >= 2 {
            start + 2
        } else {
            swaps.len()
        };
        let aggregated: bool = end - start == 2 && round_aggregatable(
            &swaps[start],
            &swaps[start + 1],
            rank,
        );
        out.push(Round { start, end, aggregated });
        start = end;
    }
    out
}

/// The rounds of a reverse pass: two swaps each, from the last back.
pub fn reverse_rounds(swaps: &Vec<SwapData>, rank: i32) -> (r: Vec<Round>)
    ensures
        r@.len() == (swaps@.len() + 1) / 2,
        forall|k: int|
            0 <= k < r@.len() ==> {
                &&& round_ok(swaps@, rank, #[trigger] r@[k])
                &&& r@[k].end == swaps@.len() - 2 * k
                &&& r@[k].start == if swaps@.len() - 2 * k >= 2 {
                    swaps@.len() - 2 * k - 2
                } else {
                    0
                }
            },
{
    let mut out: Vec<Round> = Vec::new();
    let mut end: usize = swaps.len();
    while end > 0
        invariant
            end <= swaps@.len(),
            end == swaps@.len() - 2 * out@.len() || (end == 0 && swaps@.len() + 1 == 2 * out@.len()),
            forall|k: int|
                0 <= k < out@.len() ==> {
                    &&& round_ok(swaps@, rank, #[trigger] out@[k])
                    &&& out@[k].end == swaps@.len() - 2 * k
                    &&& out@[k].start == if swaps@.len() - 2 * k >= 2 {
                        swaps@.len() - 2 * k - 2
                    } else {
                        0
                    }
                },
        decreases end,
    {
        let start: usize = if end >= 2 {
            end - 2
        } else {
            0
        };
        let aggregated: bool = end - start == 2 && round_aggregatable(
            &swaps[start],
            &swaps[start + 1],
            rank,
        );
        out.push(Round { start, end, aggregated });
        end = start;
    }
    out
}

/// Two messages between the same processes as one: what is sent and what is
/// received of the first comes first.
pub fn aggregate(lo: Message, hi: Message) -> (r: Message)
    requires
        lo.dest == hi.dest,
        lo.source == hi.source,
        lo.recv_len + hi.recv_len <= usize::MAX,
    ensures
        r.dest == lo.dest,
        r.source == lo.source,
        r.send@ == lo.send@ + hi.send@,
        r.recv_len == lo.recv_len + hi.recv_len,
{
    let mut send: Vec<Scalar> = lo.send;
    let mut rest: Vec<Scalar> = hi.send;
    send.append(&mut rest);
    Message { dest: lo.dest, source: lo.source, send, recv_len: lo.recv_len + hi.recv_len }
}

/// Both parts of an aggregated message arrive: where the receiver expects of
/// the first part what the sender put there, it finds both parts.
pub proof fn aggregated_parts_arrive(lo: Seq<Scalar>, hi: Seq<Scalar>)
    ensures
        (lo + hi).take(lo.len() as int) == lo,
        (lo + hi).skip(lo.len() as int) == hi,
{
    assert((lo + hi).take(lo.len() as int) =~= lo);
    assert((lo + hi).skip(lo.len() as int) =~= hi);
}

/// What a forward swap does with the reply: its ghosts are refreshed, unless it
/// only sends.
pub open spec fn forward_finished<D: AtomData>(
    swap: SwapData,
    recv: Seq<Scalar>,
    atoms: Atom,
    registry: AtomDataRegistry<D>,
    new: Atom,
    new_registry: AtomDataRegistry<D>,
) -> bool {
    if swap.from_proc == -1 {
        new == atoms && new_registry == registry
    } else {
        forward_taken(
            atoms,
            registry,
            new,
            new_registry,
            swap.recv_start as int,
            swap.recv_count as int,
            recv,
        )
    }
}

/// Carries out the receiving half of a forward swap; a swap that only sends
/// receives nothing.
pub fn forward_finish_swap<D: AtomData>(
    swap: &SwapData,
    recv: &[Scalar],
    atoms: &mut Atom,
    registry: &mut AtomDataRegistry<D>,
    extra: usize,
)
    requires
        old(atoms).wf(),
        old(registry).wf(),
        old(registry).parallel_to(old(atoms).records().len() as int),
        swap.recv_start + swap.recv_count <= old(atoms).records().len(),
        extra == forward_upto(old(registry).stores@, old(registry).stores@.len() as int),
        swap.from_proc != -1 ==> swap.recv_count * (FORWARD_PACK_SIZE + extra) <= recv@.len(),
    ensures
        final(atoms).wf(),
        final(registry).wf(),
        final(registry).parallel_to(final(atoms).records().len() as int),
        forward_finished(
            *swap,
            recv@,
            *old(atoms),
            *old(registry),
            *final(atoms),
            *final(registry),
        ),
{
    if swap.from_proc != -1 {
        unpack_forward(recv, atoms, registry, swap.recv_start, swap.recv_count, extra);
    }
}

/// What ghost `i` sends back to its owner.
pub open spec fn reverse_part<D: AtomData>(atoms: Atom, stores: Seq<Entry<D>>, i: int) -> Seq<Scalar> {
    seq![atoms.force@[i][0], atoms.force@[i][1], atoms.force@[i][2]] + reverse_words(
        stores,
        i,
        stores.len() as int,
    )
}

/// What `count` ghosts from `start` on send back.
pub open spec fn reverse_parts<D: AtomData>(
    atoms: Atom,
    stores: Seq<Entry<D>>,
    start: int,
    count: int,
) -> Seq<Seq<Scalar>> {
    Seq::new(count as nat, |k: int| reverse_part(atoms, stores, start + k))
}

/// Packs what the ghosts of a swap send back.
pub fn pack_reverse_into<D: AtomData>(
    swap: &SwapData,
    buf: &mut Vec<Scalar>,
    atoms: &Atom,
    registry: &AtomDataRegistry<D>,
)
    requires
        atoms.wf(),
        registry.wf(),
        registry.parallel_to(atoms.records().len() as int),
        swap.recv_start + swap.recv_count <= atoms.records().len(),
    ensures
        final(buf)@ == old(buf)@ + joined(
            reverse_parts(
                *atoms,
                registry.stores@,
                swap.recv_start as int,
                swap.recv_count as int,
            ),
        ),
        final(buf)@.len() == old(buf)@.len() + swap.recv_count * (3 + reverse_upto(
            registry.stores@,
            registry.stores@.len() as int,
        )),
{
    let ghost before: Seq<Scalar> = buf@;
    let ghost stores: Seq<Entry<D>> = registry.stores@;
    let ghost stride: int = 3int + reverse_upto(stores, stores.len() as int);
    let total: usize = atoms.len();
    let mut k: usize = 0;
    proof {
        assert(before + joined(reverse_parts(*atoms, stores, swap.recv_start as int, 0))
            =~= before);
        assert(0 * stride == 0);
    }
    while k < swap.recv_count
        invariant
            atoms.wf(),
            registry.wf(),
            registry.parallel_to(atoms.records().len() as int),
            total == atoms.records().len(),
            swap.recv_start + swap.recv_count <= total,
            stores == registry.stores@,
            stride == 3 + reverse_upto(stores, stores.len() as int),
            k <= swap.recv_count,
            buf@ == before + joined(
                reverse_parts(*atoms, stores, swap.recv_start as int, k as int),
            ),
            buf@.len() == before.len() + k * stride,
        decreases swap.recv_count - k,
    {
        let i: usize = swap.recv_start + k;
        let ghost mid: Seq<Scalar> = buf@;
        let force: Vec3 = atoms.force[i];
        buf.push(force[0]);
        buf.push(force[1]);
        buf.push(force[2]);
        registry.pack_reverse_all(i, buf);
        proof {
            let parts: Seq<Seq<Scalar>> = reverse_parts(
                *atoms,
                stores,
                swap.recv_start as int,
                k as int,
            );
            let part: Seq<Scalar> = reverse_part(*atoms, stores, i as int);
            assert(buf@ =~= mid + part);
            lemma_flat_push(parts, part);
            assert(reverse_parts(*atoms, stores, swap.recv_start as int, k + 1) =~= parts.push(part));
            assert(buf@ =~= before + (joined(parts) + part));
            assert((k + 1) * stride == k * stride + stride) by (nonlinear_arith);
        }
        k = k + 1;
    }
}

/// The forces after the first `k` returned ones were added to their owners.
pub open spec fn forces_after<F: Fn(Op, Scalar, Scalar, Scalar) -> Scalar>(
    ar: F,
    force: Seq<Vec3>,
    indices: Seq<usize>,
    recv: Seq<Scalar>,
    stride: int,
    k: int,
) -> Seq<Vec3>
    decreases k,
{
    if k <= 0 {
        force
    } else {
        let f: Seq<Vec3> = forces_after(ar, force, indices, recv, stride, k - 1);
        let o: int = indices[k - 1] as int;
        let base: int = (k - 1) * stride;
        f.update(
            o,
            [
                sum(ar, f[o][0], recv[base]),
                sum(ar, f[o][1], recv[base + 1]),
                sum(ar, f[o][2], recv[base + 2]),
            ],
        )
    }
}

/// The rows of store `s` after the first `k` returned records were added.
pub open spec fn rows_after<D: AtomData, F: Fn(Op, Scalar, Scalar, Scalar) -> Scalar>(
    ar: F,
    stores: Seq<Entry<D>>,
    indices: Seq<usize>,
    recv: Seq<Scalar>,
    stride: int,
    s: int,
    k: int,
) -> Seq<Seq<Scalar>>
    decreases k,
{
    if k <= 0 {
        stores[s].data.rows()
    } else {
        let rows: Seq<Seq<Scalar>> = rows_after(ar, stores, indices, recv, stride, s, k - 1);
        let o: int = indices[k - 1] as int;
        let at: int = (k - 1) * stride + 3;
        rows.update(
            o,
            D::with_reverse(
                stores[s].data.shape(),
                rows[o],
                recv.subrange(at + reverse_upto(stores, s), at + reverse_upto(stores, s + 1)),
                summing(ar),
            ),
        )
    }
}

proof fn lemma_rows_after_len<D: AtomData, F: Fn(Op, Scalar, Scalar, Scalar) -> Scalar>(
    ar: F,
    stores: Seq<Entry<D>>,
    indices: Seq<usize>,
    recv: Seq<Scalar>,
    stride: int,
    s: int,
    k: int,
)
    requires
        0 <= k <= indices.len(),
        indices_fit(indices, stores[s].data.rows().len() as int),
    ensures
        rows_after(ar, stores, indices, recv, stride, s, k).len() == stores[s].data.rows().len(),
    decreases k,
{
    if k > 0 {
        lemma_rows_after_len(ar, stores, indices, recv, stride, s, k - 1);
        assert(indices[k - 1] < stores[s].data.rows().len());
    }
}

/// One more returned record is added.
proof fn lemma_rows_after_step<D: AtomData, F: Fn(Op, Scalar, Scalar, Scalar) -> Scalar>(
    ar: F,
    stores: Seq<Entry<D>>,
    now: Seq<Entry<D>>,
    indices: Seq<usize>,
    recv: Seq<Scalar>,
    tail: Seq<Scalar>,
    stride: int,
    s: int,
    k: int,
    base: int,
)
    requires
        0 <= k < indices.len(),
        0 <= s < stores.len() == now.len(),
        base == k * stride,
        0 <= base,
        base + stride <= recv.len(),
        stride == 3 + reverse_upto(stores, stores.len() as int),
        tail == recv.skip(base + 3),
        forall|j: int|
            0 <= j < stores.len() ==> (#[trigger] stores[j]).data.shape() == now[j].data.shape(),
        indices_fit(indices, stores[s].data.rows().len() as int),
        now[s].data.rows() == rows_after(ar, stores, indices, recv, stride, s, k),
    ensures
        reverse_received(now, indices[k] as int, tail, summing(ar), s) == rows_after(
            ar,
            stores,
            indices,
            recv,
            stride,
            s,
            k + 1,
        ),
{
    lemma_upto_alike(stores, now, s);
    lemma_upto_alike(stores, now, s + 1);
    lemma_upto_grows(stores, s, s + 1);
    lemma_rows_after_len(ar, stores, indices, recv, stride, s, k);
    assert(stores[s].data.shape() == now[s].data.shape());
    let at: int = base + 3;
    assert(tail.subrange(reverse_upto(now, s) as int, reverse_upto(now, s + 1) as int)
        =~= recv.subrange(at + reverse_upto(stores, s), at + reverse_upto(stores, s + 1)));
}

/// What came back was added to the atoms in `indices`; everything else is as it
/// was.
pub open spec fn reverse_taken<D: AtomData, F: Fn(Op, Scalar, Scalar, Scalar) -> Scalar>(
    ar: F,
    atoms: Atom,
    registry: AtomDataRegistry<D>,
    new: Atom,
    new_registry: AtomDataRegistry<D>,
    indices: Seq<usize>,
    recv: Seq<Scalar>,
) -> bool {
    let count: int = indices.len() as int;
    let stride: int = 3int + reverse_upto(registry.stores@, registry.stores@.len() as int);
    &&& new.same_header(&atoms)
    &&& new_registry.same_stores(&registry)
    &&& new.records().len() == atoms.records().len()
    &&& new.force@ == forces_after(ar, atoms.force@, indices, recv, stride, count)
    &&& forall|i: int|
        0 <= i < atoms.records().len() ==> #[trigger] new.record(i) == (Record {
            force: new.force@[i],
            ..atoms.record(i)
        })
    &&& forall|s: int|
        0 <= s < registry.stores@.len() ==> (#[trigger] new_registry.stores@[s]).data.rows()
            == if stride > 3 {
            rows_after(ar, registry.stores@, indices, recv, stride, s, count)
        } else {
            registry.stores@[s].data.rows()
        }
}

/// Adds the forces that came back to the atoms that were sent, in order.
#[verifier::rlimit(40)]
pub fn reverse_accumulate<D: AtomData, F: Fn(Op, Scalar, Scalar, Scalar) -> Scalar>(
    swap: &SwapData,
    recv: &[Scalar],
    atoms: &mut Atom,
    registry: &mut AtomDataRegistry<D>,
    per_atom: usize,
    ar: &F,
)
    requires
        is_arithmetic(*ar),
        old(atoms).wf(),
        old(registry).wf(),
        old(registry).parallel_to(old(atoms).records().len() as int),
        indices_fit(swap.send_indices@, old(atoms).records().len() as int),
        per_atom == 3 + reverse_upto(old(registry).stores@, old(registry).stores@.len() as int),
        swap.send_indices@.len() * per_atom <= recv@.len(),
    ensures
        final(atoms).wf(),
        final(registry).wf(),
        final(registry).parallel_to(final(atoms).records().len() as int),
        reverse_taken(
            *ar,
            *old(atoms),
            *old(registry),
            *final(atoms),
            *final(registry),
            swap.send_indices@,
            recv@,
        ),
{
    let ghost start: Atom = *atoms;
    let ghost stores: Seq<Entry<D>> = registry.stores@;
    let ghost n: int = atoms.records().len() as int;
    let ghost list: Seq<usize> = swap.send_indices@;
    let mut base: usize = 0;
    let mut k: usize = 0;
    assert(0 * per_atom == 0);
    while k < swap.send_indices.len()
        invariant
            is_arithmetic(*ar),
            start == *old(atoms),
            start.wf(),
            n == start.records().len(),
            stores == old(registry).stores@,
            list == swap.send_indices@,
            indices_fit(list, n),
            per_atom == 3 + reverse_upto(stores, stores.len() as int),
            list.len() * per_atom <= recv@.len(),
            k <= list.len(),
            base == k * per_atom,
            base <= recv@.len(),
            atoms.wf(),
            registry.wf(),
            atoms.same_header(&start),
            registry.same_stores(old(registry)),
            old(registry).parallel_to(n),
            registry.parallel_to(n),
            atoms.records().len() == n,
            atoms.tag@ == start.tag@,
            atoms.atom_type@ == start.atom_type@,
            atoms.origin_index@ == start.origin_index@,
            atoms.is_ghost@ == start.is_ghost@,
            atoms.pos@ == start.pos@,
            atoms.vel@ == start.vel@,
            atoms.cutoff_radius@ == start.cutoff_radius@,
            atoms.mass@ == start.mass@,
            atoms.inv_mass@ == start.inv_mass@,
            atoms.image@ == start.image@,
            atoms.force@ == forces_after(
                *ar,
                start.force@,
                list,
                recv@,
                per_atom as int,
                k as int,
            ),
            forall|s: int|
                0 <= s < stores.len() ==> (#[trigger] registry.stores@[s]).data.rows()
                    == if per_atom > 3 {
                    rows_after(*ar, stores, list, recv@, per_atom as int, s, k as int)
                } else {
                    stores[s].data.rows()
                },
        decreases swap.send_indices.len() - k,
    {
        proof {
            assert(k * per_atom + per_atom <= list.len() * per_atom && (k + 1) * per_atom == k
                * per_atom + per_atom) by (nonlinear_arith)
                requires
                    k < list.len(),
                    per_atom >= 0,
            ;
        }
        let origin: usize = swap.send_indices[k];
        let f: Vec3 = atoms.force[origin];
        let new: Vec3 = [
            plus(ar, f[0], recv[base]),
            plus(ar, f[1], recv[base + 1]),
            plus(ar, f[2], recv[base + 2]),
        ];
        atoms.force.set(origin, new);
        proof {
            assert(atoms.force@ =~= forces_after(
                *ar,
                start.force@,
                list,
                recv@,
                per_atom as int,
                k + 1,
            ));
        }
        if per_atom > 3 {
            let ghost now: Seq<Entry<D>> = registry.stores@;
            let tail: &[Scalar] = vstd::slice::slice_subrange(recv, base + 3, recv.len());
            proof {
                assert forall|s: int| 0 <= s < stores.len() implies (
                #[trigger] stores[s]).data.shape() == now[s].data.shape() by {
                    assert(now[s].key == stores[s].key);
                }
                lemma_upto_alike(stores, now, stores.len() as int);
            }
            let _used: usize = registry.unpack_reverse_all(origin, tail, ar);
            proof {
                assert forall|s: int| 0 <= s < stores.len() implies (
                #[trigger] registry.stores@[s]).data.rows() == rows_after(
                    *ar,
                    stores,
                    list,
                    recv@,
                    per_atom as int,
                    s,
                    k + 1,
                ) by {
                    assert(now[s].key == stores[s].key);
                    assert(stores[s].data.rows().len() == n);
                    assert(tail@ =~= recv@.skip(base + 3));
                    lemma_rows_after_step(
                        *ar,
                        stores,
                        now,
                        list,
                        recv@,
                        tail@,
                        per_atom as int,
                        s,
                        k as int,
                        base as int,
                    );
                }
            }
        }
        base = base + per_atom;
        k = k + 1;
    }
}

/// What becomes of a swap of a reverse round: a message to the process that the
/// ghosts came from, or, where that is this process, forces that were added at
/// once.
pub open spec fn reverse_prepared<D: AtomData, F: Fn(Op, Scalar, Scalar, Scalar) -> Scalar>(
    ar: F,
    swap: SwapData,
    rank: i32,
    atoms: Atom,
    registry: AtomDataRegistry<D>,
    new: Atom,
    new_registry: AtomDataRegistry<D>,
    message: Option<Message>,
) -> bool {
    let stride: int = 3int + reverse_upto(registry.stores@, registry.stores@.len() as int);
    let words: Seq<Scalar> = joined(
        reverse_parts(atoms, registry.stores@, swap.recv_start as int, swap.recv_count as int),
    );
    &&& message is Some <==> swap.from_proc != rank
    &&& match message {
        Some(m) => {
            &&& m.dest == swap.from_proc
            &&& m.source == swap.to_proc
            &&& m.send@ == words
            &&& m.recv_len == if swap.to_proc != -1 {
                swap.send_indices@.len() * stride
            } else {
                0
            }
            &&& new == atoms
            &&& new_registry == registry
        },
        None => reverse_taken(
            ar,
            atoms,
            registry,
            new,
            new_registry,
            swap.send_indices@,
            words,
        ),
    }
}

/// Prepares one swap of a reverse round. A swap with itself is carried out at
/// once; any other becomes a message to the process the ghosts came from.
pub fn reverse_prepare_swap<D: AtomData, F: Fn(Op, Scalar, Scalar, Scalar) -> Scalar>(
    swap: &SwapData,
    atoms: &mut Atom,
    registry: &mut AtomDataRegistry<D>,
    rank: i32,
    per_atom: usize,
    ar: &F,
) -> (r: Option<Message>)
    requires
        is_arithmetic(*ar),
        old(atoms).wf(),
        old(registry).wf(),
        old(registry).parallel_to(old(atoms).records().len() as int),
        indices_fit(swap.send_indices@, old(atoms).records().len() as int),
        per_atom == 3 + reverse_upto(old(registry).stores@, old(registry).stores@.len() as int),
        swap.recv_start + swap.recv_count <= old(atoms).records().len(),
        swap.send_indices@.len() * per_atom <= usize::MAX,
        swap.from_proc == rank ==> swap.send_indices@.len() <= swap.recv_count,
    ensures
        final(atoms).wf(),
        final(registry).wf(),
        final(registry).parallel_to(final(atoms).records().len() as int),
        reverse_prepared(
            *ar,
            *swap,
            rank,
            *old(atoms),
            *old(registry),
            *final(atoms),
            *final(registry),
            r,
        ),
{
    let mut send: Vec<Scalar> = Vec::new();
    pack_reverse_into(swap, &mut send, atoms, registry);
    proof {
        assert(send@ =~= joined(
            reverse_parts(
                *old(atoms),
                old(registry).stores@,
                swap.recv_start as int,
                swap.recv_count as int,
            ),
        ));
    }
    if swap.from_proc == rank {
        proof {
            assert(swap.send_indices@.len() * per_atom <= swap.recv_count * per_atom)
                by (nonlinear_arith)
                requires
                    swap.send_indices@.len() <= swap.recv_count,
                    per_atom >= 0,
            ;
        }
        reverse_accumulate(swap, send.as_slice(), atoms, registry, per_atom, ar);
        return None;
    }
    let recv_len: usize = if swap.to_proc != -1 {
        swap.send_indices.len() * per_atom
    } else {
        0
    };
    Some(Message { dest: swap.from_proc, source: swap.to_proc, send, recv_len })
}

/// What a reverse swap does with the reply: it is added to the atoms that were
/// sent, unless they went nowhere.
pub open spec fn reverse_finished<D: AtomData, F: Fn(Op, Scalar, Scalar, Scalar) -> Scalar>(
    ar: F,
    swap: SwapData,
    recv: Seq<Scalar>,
    atoms: Atom,
    registry: AtomDataRegistry<D>,
    new: Atom,
    new_registry: AtomDataRegistry<D>,
) -> bool {
    if swap.to_proc == -1 {
        new == atoms && new_registry == registry
    } else {
        reverse_taken(ar, atoms, registry, new, new_registry, swap.send_indices@, recv)
    }
}

/// Carries out the receiving half of a reverse swap; ghosts that went nowhere
/// return nothing.
pub fn reverse_finish_swap<D: AtomData, F: Fn(Op, Scalar, Scalar, Scalar) -> Scalar>(
    swap: &SwapData,
    recv: &[Scalar],
    atoms: &mut Atom,
    registry: &mut AtomDataRegistry<D>,
    per_atom: usize,
    ar: &F,
)
    requires
        is_arithmetic(*ar),
        old(atoms).wf(),
        old(registry).wf(),
        old(registry).parallel_to(old(atoms).records().len() as int),
        indices_fit(swap.send_indices@, old(atoms).records().len() as int),
        per_atom == 3 + reverse_upto(old(registry).stores@, old(registry).stores@.len() as int),
        swap.to_proc != -1 ==> swap.send_indices@.len() * per_atom <= recv@.len(),
    ensures
        final(atoms).wf(),
        final(registry).wf(),
        final(registry).parallel_to(final(atoms).records().len() as int),
        reverse_finished(
            *ar,
            *swap,
            recv@,
            *old(atoms),
            *old(registry),
            *final(atoms),
            *final(registry),
        ),
{
    if swap.to_proc != -1 {
        reverse_accumulate(swap, recv, atoms, registry, per_atom, ar);
    }
}

/// Extension data follows its owners too: once a neighbor whose stores are laid
/// out alike has taken the message over, each of its ghosts holds in every store
/// the forward data of the atom it stands for.
pub proof fn ghost_data_follows_owners<D: AtomData, F: Fn(Op, Scalar, Scalar, Scalar) -> Scalar>(
    ar: F,
    atoms: Atom,
    registry: AtomDataRegistry<D>,
    there: Seq<Entry<D>>,
    by: Vec3,
    indices: Seq<usize>,
    start: int,
    k: int,
    s: int,
)
    requires
        atoms.wf(),
        registry.wf(),
        registry.parallel_to(atoms.records().len() as int),
        indices_fit(indices, atoms.records().len() as int),
        0 <= k < indices.len(),
        there.len() == registry.stores@.len(),
        forall|t: int|
            0 <= t < there.len() ==> (#[trigger] there[t]).data.shape()
                == registry.stores@[t].data.shape(),
        0 <= s < there.len(),
        there[s].data.valid(),
        0 <= start,
        start + indices.len() <= there[s].data.rows().len(),
    ensures
        D::forward_part(
            there[s].data.shape(),
            refreshed_rows(
                there,
                joined(forward_parts(ar, atoms, registry.stores@, by, indices)),
                start,
                indices.len() as int,
                s,
            )[start + k],
        ) == D::forward_part(
            there[s].data.shape(),
            registry.stores@[s].data.rows()[indices[k] as int],
        ),
{
    let stores: Seq<Entry<D>> = registry.stores@;
    let all: int = stores.len() as int;
    lemma_upto_alike(there, stores, s);
    lemma_upto_alike(there, stores, s + 1);
    lemma_upto_alike(there, stores, all);
    let msg: Seq<Scalar> = joined(forward_parts(ar, atoms, stores, by, indices));
    let at: int = k * (FORWARD_PACK_SIZE + forward_upto(stores, all)) + FORWARD_PACK_SIZE;
    let words: Seq<Scalar> = msg.subrange(
        at + forward_upto(stores, s),
        at + forward_upto(stores, s + 1),
    );
    lemma_words_arrive(ar, atoms, registry, by, indices, k, s);
    stores[s].data.message_sizes(indices[k] as int);
    there[s].data.forward_arrives(start + k, words);
}

/// The words that a message holds of store `s` for its `k`-th atom.
pub proof fn lemma_words_arrive<D: AtomData, F: Fn(Op, Scalar, Scalar, Scalar) -> Scalar>(
    ar: F,
    atoms: Atom,
    registry: AtomDataRegistry<D>,
    by: Vec3,
    indices: Seq<usize>,
    k: int,
    s: int,
)
    requires
        atoms.wf(),
        registry.wf(),
        registry.parallel_to(atoms.records().len() as int),
        indices_fit(indices, atoms.records().len() as int),
        0 <= k < indices.len(),
        0 <= s < registry.stores@.len(),
    ensures
        ({
            let stores = registry.stores@;
            let at = k * (FORWARD_PACK_SIZE + forward_upto(stores, stores.len() as int))
                + FORWARD_PACK_SIZE;
            joined(forward_parts(ar, atoms, stores, by, indices)).subrange(
                at + forward_upto(stores, s),
                at + forward_upto(stores, s + 1),
            ) == D::forward_part(
                stores[s].data.shape(),
                stores[s].data.rows()[indices[k] as int],
            )
        }),
{
    let stores: Seq<Entry<D>> = registry.stores@;
    let all: int = stores.len() as int;
    let owner: int = indices[k] as int;
    let parts: Seq<Seq<Scalar>> = forward_parts(ar, atoms, stores, by, indices);
    let msg: Seq<Scalar> = joined(parts);
    let stride: int = FORWARD_PACK_SIZE + forward_upto(stores, all);
    assert forall|m: int| 0 <= m < parts.len() implies (#[trigger] parts[m]).len() == stride by {
        assert(indices[m] < atoms.records().len());
        lemma_words_len(stores, indices[m] as int, all);
    }
    lemma_words_at(stores, owner, s, all);
    let from: int = FORWARD_PACK_SIZE + forward_upto(stores, s);
    let to: int = FORWARD_PACK_SIZE + forward_upto(stores, s + 1);
    let words: Seq<Scalar> = forward_row(stores[s].data, owner);
    let got: Seq<Scalar> = msg.subrange(k * stride + from, k * stride + to);
    stores[s].data.message_sizes(owner);
    lemma_even_len(parts, stride, parts.len() as int);
    assert((k + 1) * stride == k * stride + stride) by (nonlinear_arith);
    assert((k + 1) * stride <= parts.len() * stride) by (nonlinear_arith)
        requires
            k + 1 <= parts.len(),
            0 <= stride,
    ;
    assert(got =~= words) by {
        assert forall|j: int| 0 <= j < words.len() implies got[j] == words[j] by {
            lemma_even_parts(parts, stride, k, from + j);
            assert(parts[k][from + j] == forward_words(stores, owner, all)[forward_upto(stores, s)
                + j]);
        }
    }
}

proof fn lemma_words_at<D: AtomData>(stores: Seq<Entry<D>>, i: int, s: int, k: int)
    requires
        0 <= s < k <= stores.len(),
        crate::transport::holds_atom(stores, i),
    ensures
        forward_upto(stores, s + 1) <= forward_upto(stores, k),
        reverse_upto(stores, s + 1) <= reverse_upto(stores, k),
        forward_words(stores, i, k).len() == forward_upto(stores, k),
        reverse_words(stores, i, k).len() == reverse_upto(stores, k),
        forall|j: int|
            0 <= j < D::forward_size(stores[s].data.shape()) ==> forward_words(stores, i, k)[#[trigger] (
            forward_upto(stores, s) + j)] == forward_row(stores[s].data, i)[j],
        forall|j: int|
            0 <= j < D::reverse_size(stores[s].data.shape()) ==> reverse_words(stores, i, k)[#[trigger] (
            reverse_upto(stores, s) + j)] == reverse_row(stores[s].data, i)[j],
    decreases k,
{
    lemma_words_len(stores, i, k);
    lemma_words_len(stores, i, k - 1);
    stores[k - 1].data.message_sizes(i);
    if s < k - 1 {
        lemma_words_at(stores, i, s, k - 1);
    }
}

/// What ghost `k` sends back reaches the place in the message that its owner
/// reads: its force first, then the words of store `s`.
pub proof fn lemma_returns_arrive<D: AtomData>(
    atoms: Atom,
    registry: AtomDataRegistry<D>,
    start: int,
    count: int,
    k: int,
    s: int,
)
    requires
        atoms.wf(),
        registry.wf(),
        registry.parallel_to(atoms.records().len() as int),
        0 <= start,
        start + count <= atoms.records().len(),
        0 <= k < count,
        0 <= s <= registry.stores@.len(),
    ensures
        ({
            let stores = registry.stores@;
            let base = k * (3 + reverse_upto(stores, stores.len() as int));
            let msg = joined(reverse_parts(atoms, stores, start, count));
            &&& msg[base] == atoms.force@[start + k][0]
            &&& msg[base + 1] == atoms.force@[start + k][1]
            &&& msg[base + 2] == atoms.force@[start + k][2]
            &&& s < stores.len() ==> msg.subrange(
                base + 3 + reverse_upto(stores, s),
                base + 3 + reverse_upto(stores, s + 1),
            ) == D::reverse_part(stores[s].data.shape(), stores[s].data.rows()[start + k])
        }),
{
    let stores: Seq<Entry<D>> = registry.stores@;
    let all: int = stores.len() as int;
    let i: int = start + k;
    let parts: Seq<Seq<Scalar>> = reverse_parts(atoms, stores, start, count);
    let msg: Seq<Scalar> = joined(parts);
    let stride: int = 3int + reverse_upto(stores, all);
    assert forall|m: int| 0 <= m < parts.len() implies (#[trigger] parts[m]).len() == stride by {
        lemma_words_len(stores, start + m, all);
    }
    lemma_even_parts(parts, stride, k, 0);
    lemma_even_parts(parts, stride, k, 1);
    lemma_even_parts(parts, stride, k, 2);
    if s < all {
        lemma_words_at(stores, i, s, all);
        let from: int = 3int + reverse_upto(stores, s);
        let to: int = 3int + reverse_upto(stores, s + 1);
        let words: Seq<Scalar> = reverse_row(stores[s].data, i);
        let got: Seq<Scalar> = msg.subrange(k * stride + from, k * stride + to);
        stores[s].data.message_sizes(i);
        lemma_even_len(parts, stride, parts.len() as int);
        assert((k + 1) * stride == k * stride + stride) by (nonlinear_arith);
        assert((k + 1) * stride <= parts.len() * stride) by (nonlinear_arith)
            requires
                k + 1 <= parts.len(),
                0 <= stride,
        ;
        assert(got =~= words) by {
            assert forall|j: int| 0 <= j < words.len() implies got[j] == words[j] by {
                lemma_even_parts(parts, stride, k, from + j);
                assert(parts[k][from + j] == reverse_words(stores, i, all)[reverse_upto(stores, s)
                    + j]);
            }
        }
    }
}

proof fn lemma_words_len<D: AtomData>(stores: Seq<Entry<D>>, i: int, k: int)
    requires
        0 <= k <= stores.len(),
        crate::transport::holds_atom(stores, i),
    ensures
        forward_words(stores, i, k).len() == forward_upto(stores, k),
        reverse_words(stores, i, k).len() == reverse_upto(stores, k),
    decreases k,
{
    if k > 0 {
        lemma_words_len(stores, i, k - 1);
        stores[k - 1].data.message_sizes(i);
    }
}

/// Ghosts follow their owners: the ghost that stands for the `k`-th atom of a
/// swap is given that atom's position, moved by the offset, and its velocity.
pub proof fn ghosts_follow_owners<D: AtomData, F: Fn(Op, Scalar, Scalar, Scalar) -> Scalar>(
    ar: F,
    atoms: Atom,
    registry: AtomDataRegistry<D>,
    by: Vec3,
    indices: Seq<usize>,
    k: int,
    rec: Record,
    new: Record,
)
    requires
        atoms.wf(),
        registry.wf(),
        registry.parallel_to(atoms.records().len() as int),
        indices_fit(indices, atoms.records().len() as int),
        0 <= k < indices.len(),
        refreshed(
            rec,
            new,
            joined(forward_parts(ar, atoms, registry.stores@, by, indices)),
            k * (FORWARD_PACK_SIZE + forward_upto(
                registry.stores@,
                registry.stores@.len() as int,
            )),
        ),
    ensures
        forall|d: int|
            0 <= d < 3 ==> #[trigger] new.pos[d] == sum(
                ar,
                atoms.pos@[indices[k] as int][d],
                by[d],
            ),
        forall|d: int| 0 <= d < 3 ==> #[trigger] new.vel[d] == atoms.vel@[indices[k] as int][d],
{
    let stores: Seq<Entry<D>> = registry.stores@;
    let parts: Seq<Seq<Scalar>> = forward_parts(ar, atoms, stores, by, indices);
    let stride: int = FORWARD_PACK_SIZE + forward_upto(stores, stores.len() as int);
    assert forall|m: int| 0 <= m < parts.len() implies (#[trigger] parts[m]).len() == stride by {
        assert(indices[m] < atoms.records().len());
        lemma_words_len(stores, indices[m] as int, stores.len() as int);
    }
    lemma_even_parts(parts, stride, k, 0);
    lemma_even_parts(parts, stride, k, 1);
    lemma_even_parts(parts, stride, k, 2);
    lemma_even_parts(parts, stride, k, 3);
    lemma_even_parts(parts, stride, k, 4);
    lemma_even_parts(parts, stride, k, 5);
}

/// Each returned force is added to its owner once: with every owner named
/// once, an owner's force grows by exactly what came back for it, and the
/// forces of all other atoms are left alone.
pub proof fn returned_forces_reach_owners<F: Fn(Op, Scalar, Scalar, Scalar) -> Scalar>(
    ar: F,
    force: Seq<Vec3>,
    indices: Seq<usize>,
    recv: Seq<Scalar>,
    stride: int,
    n: int,
    o: int,
)
    requires
        0 <= n <= indices.len(),
        indices_fit(indices, force.len() as int),
        indices.no_duplicates(),
        0 <= o < force.len(),
    ensures
        forces_after(ar, force, indices, recv, stride, n).len() == force.len(),
        (forall|k: int| 0 <= k < n ==> #[trigger] indices[k] != o) ==> forces_after(
            ar,
            force,
            indices,
            recv,
            stride,
            n,
        )[o] == force[o],
        forall|k: int|
            0 <= k < n && #[trigger] indices[k] == o ==> {
                let f = forces_after(ar, force, indices, recv, stride, n)[o];
                &&& f[0] == sum(ar, force[o][0], recv[k * stride])
                &&& f[1] == sum(ar, force[o][1], recv[k * stride + 1])
                &&& f[2] == sum(ar, force[o][2], recv[k * stride + 2])
            },
    decreases n,
{
    if n > 0 {
        returned_forces_reach_owners(ar, force, indices, recv, stride, n - 1, o);
        assert(indices[n - 1] < force.len());
        if indices[n - 1] == o {
            assert forall|k: int| 0 <= k < n - 1 implies #[trigger] indices[k] != o by {}
        }
    }
}

} // verus!

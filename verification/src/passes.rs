//! Forward and reverse passes over all swaps. A round of a pass is carried out
//! in two steps with one exchange of messages between them.

use crate::atom::Atom;
use crate::atom_data::{forward_upto, reverse_upto, AtomData, AtomDataRegistry};
use crate::comm::SwapData;
use crate::refresh::{
    aggregate, forward_finish_swap, forward_finished, forward_prepare_swap, forward_prepared,
    indices_fit, lemma_upto_alike, reverse_finish_swap, reverse_finished, reverse_prepare_swap,
    reverse_prepared, round_ok, Message, Round, FORWARD_PACK_SIZE,
};
use crate::scalar::{is_arithmetic, Op, Scalar};
use vstd::prelude::*;

verus! {

/// The messages of a round's two swaps, as they are sent.
pub open spec fn round_sends(
    aggregated: bool,
    lo: Option<Message>,
    hi: Option<Message>,
    out: Seq<Message>,
) -> bool {
    match (lo, hi) {
        (Some(a), Some(b)) if aggregated => {
            &&& out.len() == 1
            &&& out[0].dest == a.dest
            &&& out[0].source == a.source
            &&& out[0].send@ == a.send@ + b.send@
            &&& out[0].recv_len == a.recv_len + b.recv_len
        },
        (Some(a), Some(b)) => out == seq![a, b],
        (Some(a), None) => out == seq![a],
        (None, Some(b)) => out == seq![b],
        (None, None) => out == Seq::<Message>::empty(),
    }
}

/// Puts the messages of a round together.
fn round_messages(aggregated: bool, lo: Option<Message>, hi: Option<Message>) -> (r: Vec<Message>)
    requires
        aggregated ==> (lo matches Some(a) && hi matches Some(b) && a.dest == b.dest && a.source
            == b.source && a.recv_len + b.recv_len <= usize::MAX),
    ensures
        round_sends(aggregated, lo, hi, r@),
{
    let mut out: Vec<Message> = Vec::new();
    match (lo, hi) {
        (Some(a), Some(b)) => {
            if aggregated {
                out.push(aggregate(a, b));
            } else {
                out.push(a);
                out.push(b);
                assert(out@ =~= seq![a, b]);
            }
        },
        (Some(a), None) => {
            out.push(a);
            assert(out@ =~= seq![a]);
        },
        (None, Some(b)) => {
            out.push(b);
            assert(out@ =~= seq![b]);
        },
        (None, None) => {
            assert(out@ =~= Seq::<Message>::empty());
        },
    }
    out
}

/// What came back for one swap of a round: a message of its own, or its part of
/// the message that both share.
pub open spec fn reply(
    replies: Seq<Vec<Scalar>>,
    aggregated: bool,
    lo_sent: bool,
    split: int,
    hi: bool,
) -> Seq<Scalar> {
    if aggregated && hi {
        replies[0]@.skip(split)
    } else if aggregated {
        replies[0]@.take(split)
    } else if hi && lo_sent {
        replies[1]@
    } else {
        replies[0]@
    }
}

/// A reply came for every swap that sent a message.
pub open spec fn replies_fit(
    replies: Seq<Vec<Scalar>>,
    aggregated: bool,
    lo_sent: bool,
    hi_sent: bool,
    split: int,
) -> bool {
    if aggregated {
        replies.len() == 1 && split <= replies[0]@.len()
    } else {
        replies.len() == if lo_sent {
            1int
        } else {
            0
        } + if hi_sent {
            1int
        } else {
            0
        }
    }
}

fn reply_to(
    replies: &Vec<Vec<Scalar>>,
    aggregated: bool,
    lo_sent: bool,
    hi_sent: bool,
    split: usize,
    hi: bool,
) -> (r: &[Scalar])
    requires
        replies_fit(replies@, aggregated, lo_sent, hi_sent, split as int),
        if hi {
            hi_sent
        } else {
            lo_sent
        },
    ensures
        r@ == reply(replies@, aggregated, lo_sent, split as int, hi),
{
    if aggregated {
        let all: &[Scalar] = replies[0].as_slice();
        if hi {
            let part: &[Scalar] = vstd::slice::slice_subrange(all, split, all.len());
            assert(part@ =~= replies@[0]@.skip(split as int));
            part
        } else {
            let part: &[Scalar] = vstd::slice::slice_subrange(all, 0, split);
            assert(part@ =~= replies@[0]@.take(split as int));
            part
        }
    } else if hi && lo_sent {
        replies[1].as_slice()
    } else {
        replies[0].as_slice()
    }
}

/// The swap can be refreshed on `n` atoms.
pub open spec fn forward_fits(swap: SwapData, n: int, rank: i32, extra: int) -> bool {
    &&& indices_fit(swap.send_indices@, n)
    &&& swap.recv_start + swap.recv_count <= n
    &&& swap.recv_count * (FORWARD_PACK_SIZE + extra) <= usize::MAX
    &&& swap.to_proc == rank ==> swap.recv_count <= swap.send_indices@.len()
}

/// The first half of a forward round: the swaps are prepared one after the
/// other, and their messages are `out`.
pub open spec fn forward_round_sent<D: AtomData, F: Fn(Op, Scalar, Scalar, Scalar) -> Scalar>(
    ar: F,
    swaps: Seq<SwapData>,
    round: Round,
    rank: i32,
    atoms: Atom,
    registry: AtomDataRegistry<D>,
    new: Atom,
    new_registry: AtomDataRegistry<D>,
    out: Seq<Message>,
) -> bool {
    if round.end == round.start + 1 {
        exists|lo: Option<Message>|
            {
                &&& #[trigger] forward_prepared(
                    ar,
                    swaps[round.start as int],
                    rank,
                    atoms,
                    registry,
                    new,
                    new_registry,
                    lo,
                )
                &&& round_sends(false, lo, None, out)
            }
    } else {
        exists|lo: Option<Message>, hi: Option<Message>, mid: Atom, mid_registry: AtomDataRegistry<D>|
            {
                &&& #[trigger] forward_prepared(
                    ar,
                    swaps[round.start as int],
                    rank,
                    atoms,
                    registry,
                    mid,
                    mid_registry,
                    lo,
                )
                &&& #[trigger] forward_prepared(
                    ar,
                    swaps[round.start + 1],
                    rank,
                    mid,
                    mid_registry,
                    new,
                    new_registry,
                    hi,
                )
                &&& round_sends(round.aggregated, lo, hi, out)
            }
    }
}

/// Carries out the first half of a forward round and returns the messages to be
/// sent at the same time.
pub fn forward_round<D: AtomData, F: Fn(Op, Scalar, Scalar, Scalar) -> Scalar>(
    swaps: &Vec<SwapData>,
    round: Round,
    atoms: &mut Atom,
    registry: &mut AtomDataRegistry<D>,
    rank: i32,
    extra: usize,
    ar: &F,
) -> (r: Vec<Message>)
    requires
        is_arithmetic(*ar),
        old(atoms).wf(),
        old(registry).wf(),
        old(registry).parallel_to(old(atoms).records().len() as int),
        extra == forward_upto(old(registry).stores@, old(registry).stores@.len() as int),
        round_ok(swaps@, rank, round),
        forall|k: int|
            round.start <= k < round.end ==> forward_fits(
                #[trigger] swaps@[k],
                old(atoms).records().len() as int,
                rank,
                extra as int,
            ),
        round.aggregated ==> (swaps@[round.start as int].recv_count + swaps@[round.start
            + 1].recv_count) * (FORWARD_PACK_SIZE + extra) <= usize::MAX,
    ensures
        final(atoms).wf(),
        final(registry).wf(),
        final(registry).parallel_to(final(atoms).records().len() as int),
        final(atoms).records().len() == old(atoms).records().len(),
        forward_upto(final(registry).stores@, final(registry).stores@.len() as int) == extra,
        forward_round_sent(
            *ar,
            swaps@,
            round,
            rank,
            *old(atoms),
            *old(registry),
            *final(atoms),
            *final(registry),
            r@,
        ),
{
    let lo: Option<Message> = forward_prepare_swap(
        &swaps[round.start],
        atoms,
        registry,
        rank,
        extra,
        ar,
    );
    proof {
        lemma_upto_alike(registry.stores@, old(registry).stores@, registry.stores@.len() as int);
    }
    if round.end - round.start == 1 {
        return round_messages(false, lo, None);
    }
    let hi: Option<Message> = forward_prepare_swap(
        &swaps[round.start + 1],
        atoms,
        registry,
        rank,
        extra,
        ar,
    );
    proof {
        lemma_upto_alike(registry.stores@, old(registry).stores@, registry.stores@.len() as int);
        let stride: int = FORWARD_PACK_SIZE + extra;
        let a: int = swaps@[round.start as int].recv_count as int;
        let b: int = swaps@[round.start + 1].recv_count as int;
        assert((a + b) * stride == a * stride + b * stride) by (nonlinear_arith);
    }
    round_messages(round.aggregated, lo, hi)
}

/// What one swap does with its reply, if it sent a message.
pub open spec fn forward_answered<D: AtomData>(
    swap: SwapData,
    rank: i32,
    recv: Seq<Scalar>,
    atoms: Atom,
    registry: AtomDataRegistry<D>,
    new: Atom,
    new_registry: AtomDataRegistry<D>,
) -> bool {
    if swap.to_proc == rank {
        new == atoms && new_registry == registry
    } else {
        forward_finished(swap, recv, atoms, registry, new, new_registry)
    }
}

/// The second half of a forward round: the swaps that sent a message take their
/// replies over one after the other.
pub open spec fn forward_round_taken<D: AtomData>(
    swaps: Seq<SwapData>,
    round: Round,
    rank: i32,
    extra: int,
    replies: Seq<Vec<Scalar>>,
    atoms: Atom,
    registry: AtomDataRegistry<D>,
    new: Atom,
    new_registry: AtomDataRegistry<D>,
) -> bool {
    let lo: SwapData = swaps[round.start as int];
    let lo_sent: bool = lo.to_proc != rank;
    let split: int = lo.recv_count * (FORWARD_PACK_SIZE + extra);
    let first: Seq<Scalar> = reply(replies, round.aggregated, lo_sent, split, false);
    let second: Seq<Scalar> = reply(replies, round.aggregated, lo_sent, split, true);
    if round.end == round.start + 1 {
        forward_answered(lo, rank, first, atoms, registry, new, new_registry)
    } else {
        forward_both_answered(
            lo,
            swaps[round.start + 1],
            rank,
            first,
            second,
            atoms,
            registry,
            new,
            new_registry,
        )
    }
}

/// Two swaps take their replies over one after the other.
pub open spec fn forward_both_answered<D: AtomData>(
    lo: SwapData,
    hi: SwapData,
    rank: i32,
    first: Seq<Scalar>,
    second: Seq<Scalar>,
    atoms: Atom,
    registry: AtomDataRegistry<D>,
    new: Atom,
    new_registry: AtomDataRegistry<D>,
) -> bool {
    exists|mid: Atom, mid_registry: AtomDataRegistry<D>|
        {
            &&& #[trigger] forward_answered(lo, rank, first, atoms, registry, mid, mid_registry)
            &&& forward_answered(hi, rank, second, mid, mid_registry, new, new_registry)
        }
}

/// The replies to a forward round are there and long enough.
pub open spec fn forward_replies_fit(
    swaps: Seq<SwapData>,
    round: Round,
    rank: i32,
    extra: int,
    replies: Seq<Vec<Scalar>>,
) -> bool {
    let lo: SwapData = swaps[round.start as int];
    let lo_sent: bool = lo.to_proc != rank;
    let stride: int = FORWARD_PACK_SIZE + extra;
    let split: int = lo.recv_count * stride;
    let first: Seq<Scalar> = reply(replies, round.aggregated, lo_sent, split, false);
    let second: Seq<Scalar> = reply(replies, round.aggregated, lo_sent, split, true);
    let hi: SwapData = swaps[round.start + 1];
    let hi_sent: bool = round.end == round.start + 2 && hi.to_proc != rank;
    &&& replies_fit(replies, round.aggregated, lo_sent, hi_sent, split)
    &&& lo_sent && lo.from_proc != -1 ==> lo.recv_count * stride <= first.len()
    &&& hi_sent && hi.from_proc != -1 ==> hi.recv_count * stride <= second.len()
}

/// Carries out the second half of a forward round, with the replies in the order
/// in which the messages were sent.
pub fn forward_round_finish<D: AtomData>(
    swaps: &Vec<SwapData>,
    round: Round,
    replies: &Vec<Vec<Scalar>>,
    atoms: &mut Atom,
    registry: &mut AtomDataRegistry<D>,
    rank: i32,
    extra: usize,
)
    requires
        old(atoms).wf(),
        old(registry).wf(),
        old(registry).parallel_to(old(atoms).records().len() as int),
        extra == forward_upto(old(registry).stores@, old(registry).stores@.len() as int),
        round_ok(swaps@, rank, round),
        forall|k: int|
            round.start <= k < round.end ==> forward_fits(
                #[trigger] swaps@[k],
                old(atoms).records().len() as int,
                rank,
                extra as int,
            ),
        forward_replies_fit(swaps@, round, rank, extra as int, replies@),
    ensures
        final(atoms).wf(),
        final(registry).wf(),
        final(registry).parallel_to(final(atoms).records().len() as int),
        final(atoms).records().len() == old(atoms).records().len(),
        forward_upto(final(registry).stores@, final(registry).stores@.len() as int) == extra,
        forward_round_taken(
            swaps@,
            round,
            rank,
            extra as int,
            replies@,
            *old(atoms),
            *old(registry),
            *final(atoms),
            *final(registry),
        ),
{
    let lo: &SwapData = &swaps[round.start];
    let lo_sent: bool = lo.to_proc != rank;
    let hi_sent: bool = round.end - round.start == 2 && swaps[round.start + 1].to_proc != rank;
    let split: usize = if lo.recv_count == 0 {
        assert(0 * (FORWARD_PACK_SIZE + extra) == 0);
        0
    } else {
        proof {
            assert(FORWARD_PACK_SIZE + extra <= lo.recv_count * (FORWARD_PACK_SIZE + extra))
                by (nonlinear_arith)
                requires
                    lo.recv_count >= 1,
            ;
        }
        lo.recv_count * (FORWARD_PACK_SIZE + extra)
    };
    if lo_sent {
        let words: &[Scalar] = reply_to(
            replies,
            round.aggregated,
            lo_sent,
            hi_sent,
            split,
            false,
        );
        forward_finish_swap(lo, words, atoms, registry, extra);
    }
    let ghost first: Seq<Scalar> = reply(
        replies@,
        round.aggregated,
        lo_sent,
        split as int,
        false,
    );
    proof {
        lemma_upto_alike(registry.stores@, old(registry).stores@, registry.stores@.len() as int);
        assert(forward_answered(
            *lo,
            rank,
            first,
            *old(atoms),
            *old(registry),
            *atoms,
            *registry,
        ));
    }
    if hi_sent {
        let words: &[Scalar] = reply_to(replies, round.aggregated, lo_sent, hi_sent, split, true);
        forward_finish_swap(&swaps[round.start + 1], words, atoms, registry, extra);
    }
    proof {
        lemma_upto_alike(registry.stores@, old(registry).stores@, registry.stores@.len() as int);
    }
}

/// What the ghosts of the swap received can go back on `n` atoms.
pub open spec fn reverse_fits(swap: SwapData, n: int, rank: i32, per_atom: int) -> bool {
    &&& indices_fit(swap.send_indices@, n)
    &&& swap.recv_start + swap.recv_count <= n
    &&& swap.send_indices@.len() * per_atom <= usize::MAX
    &&& swap.from_proc == rank ==> swap.send_indices@.len() <= swap.recv_count
}

/// The first half of a reverse round: the swaps are prepared one after the
/// other, and their messages are `out`.
pub open spec fn reverse_round_sent<D: AtomData, F: Fn(Op, Scalar, Scalar, Scalar) -> Scalar>(
    ar: F,
    swaps: Seq<SwapData>,
    round: Round,
    rank: i32,
    atoms: Atom,
    registry: AtomDataRegistry<D>,
    new: Atom,
    new_registry: AtomDataRegistry<D>,
    out: Seq<Message>,
) -> bool {
    if round.end == round.start + 1 {
        exists|lo: Option<Message>|
            {
                &&& #[trigger] reverse_prepared(
                    ar,
                    swaps[round.start as int],
                    rank,
                    atoms,
                    registry,
                    new,
                    new_registry,
                    lo,
                )
                &&& round_sends(false, lo, None, out)
            }
    } else {
        exists|lo: Option<Message>, hi: Option<Message>, mid: Atom, mid_registry: AtomDataRegistry<D>|
            {
                &&& #[trigger] reverse_prepared(
                    ar,
                    swaps[round.start as int],
                    rank,
                    atoms,
                    registry,
                    mid,
                    mid_registry,
                    lo,
                )
                &&& #[trigger] reverse_prepared(
                    ar,
                    swaps[round.start + 1],
                    rank,
                    mid,
                    mid_registry,
                    new,
                    new_registry,
                    hi,
                )
                &&& round_sends(round.aggregated, lo, hi, out)
            }
    }
}

/// Carries out the first half of a reverse round and returns the messages to be
/// sent at the same time.
pub fn reverse_round<D: AtomData, F: Fn(Op, Scalar, Scalar, Scalar) -> Scalar>(
    swaps: &Vec<SwapData>,
    round: Round,
    atoms: &mut Atom,
    registry: &mut AtomDataRegistry<D>,
    rank: i32,
    per_atom: usize,
    ar: &F,
) -> (r: Vec<Message>)
    requires
        is_arithmetic(*ar),
        old(atoms).wf(),
        old(registry).wf(),
        old(registry).parallel_to(old(atoms).records().len() as int),
        per_atom == 3 + reverse_upto(old(registry).stores@, old(registry).stores@.len() as int),
        round_ok(swaps@, rank, round),
        forall|k: int|
            round.start <= k < round.end ==> reverse_fits(
                #[trigger] swaps@[k],
                old(atoms).records().len() as int,
                rank,
                per_atom as int,
            ),
        round.aggregated ==> (swaps@[round.start as int].send_indices@.len() + swaps@[round.start
            + 1].send_indices@.len()) * per_atom <= usize::MAX,
    ensures
        final(atoms).wf(),
        final(registry).wf(),
        final(registry).parallel_to(final(atoms).records().len() as int),
        final(atoms).records().len() == old(atoms).records().len(),
        3 + reverse_upto(final(registry).stores@, final(registry).stores@.len() as int) == per_atom,
        reverse_round_sent(
            *ar,
            swaps@,
            round,
            rank,
            *old(atoms),
            *old(registry),
            *final(atoms),
            *final(registry),
            r@,
        ),
{
    let lo: Option<Message> = reverse_prepare_swap(
        &swaps[round.start],
        atoms,
        registry,
        rank,
        per_atom,
        ar,
    );
    proof {
        lemma_upto_alike(registry.stores@, old(registry).stores@, registry.stores@.len() as int);
    }
    if round.end - round.start == 1 {
        return round_messages(false, lo, None);
    }
    let hi: Option<Message> = reverse_prepare_swap(
        &swaps[round.start + 1],
        atoms,
        registry,
        rank,
        per_atom,
        ar,
    );
    proof {
        lemma_upto_alike(registry.stores@, old(registry).stores@, registry.stores@.len() as int);
        let a: int = swaps@[round.start as int].send_indices@.len() as int;
        let b: int = swaps@[round.start + 1].send_indices@.len() as int;
        assert((a + b) * per_atom == a * per_atom + b * per_atom) by (nonlinear_arith);
    }
    round_messages(round.aggregated, lo, hi)
}

/// What one swap does with what came back, if it sent a message.
pub open spec fn reverse_answered<D: AtomData, F: Fn(Op, Scalar, Scalar, Scalar) -> Scalar>(
    ar: F,
    swap: SwapData,
    rank: i32,
    recv: Seq<Scalar>,
    atoms: Atom,
    registry: AtomDataRegistry<D>,
    new: Atom,
    new_registry: AtomDataRegistry<D>,
) -> bool {
    if swap.from_proc == rank {
        new == atoms && new_registry == registry
    } else {
        reverse_finished(ar, swap, recv, atoms, registry, new, new_registry)
    }
}

/// Two swaps add what came back one after the other.
pub open spec fn reverse_both_answered<D: AtomData, F: Fn(Op, Scalar, Scalar, Scalar) -> Scalar>(
    ar: F,
    lo: SwapData,
    hi: SwapData,
    rank: i32,
    first: Seq<Scalar>,
    second: Seq<Scalar>,
    atoms: Atom,
    registry: AtomDataRegistry<D>,
    new: Atom,
    new_registry: AtomDataRegistry<D>,
) -> bool {
    exists|mid: Atom, mid_registry: AtomDataRegistry<D>|
        {
            &&& #[trigger] reverse_answered(ar, lo, rank, first, atoms, registry, mid, mid_registry)
            &&& reverse_answered(ar, hi, rank, second, mid, mid_registry, new, new_registry)
        }
}

/// The second half of a reverse round: the swaps that sent a message add what
/// came back one after the other.
pub open spec fn reverse_round_taken<D: AtomData, F: Fn(Op, Scalar, Scalar, Scalar) -> Scalar>(
    ar: F,
    swaps: Seq<SwapData>,
    round: Round,
    rank: i32,
    per_atom: int,
    replies: Seq<Vec<Scalar>>,
    atoms: Atom,
    registry: AtomDataRegistry<D>,
    new: Atom,
    new_registry: AtomDataRegistry<D>,
) -> bool {
    let lo: SwapData = swaps[round.start as int];
    let lo_sent: bool = lo.from_proc != rank;
    let split: int = lo.send_indices@.len() * per_atom;
    let first: Seq<Scalar> = reply(replies, round.aggregated, lo_sent, split, false);
    let second: Seq<Scalar> = reply(replies, round.aggregated, lo_sent, split, true);
    if round.end == round.start + 1 {
        reverse_answered(ar, lo, rank, first, atoms, registry, new, new_registry)
    } else {
        reverse_both_answered(
            ar,
            lo,
            swaps[round.start + 1],
            rank,
            first,
            second,
            atoms,
            registry,
            new,
            new_registry,
        )
    }
}

/// The replies to a reverse round are there and long enough.
pub open spec fn reverse_replies_fit(
    swaps: Seq<SwapData>,
    round: Round,
    rank: i32,
    per_atom: int,
    replies: Seq<Vec<Scalar>>,
) -> bool {
    let lo: SwapData = swaps[round.start as int];
    let lo_sent: bool = lo.from_proc != rank;
    let split: int = lo.send_indices@.len() * per_atom;
    let first: Seq<Scalar> = reply(replies, round.aggregated, lo_sent, split, false);
    let second: Seq<Scalar> = reply(replies, round.aggregated, lo_sent, split, true);
    let hi: SwapData = swaps[round.start + 1];
    let hi_sent: bool = round.end == round.start + 2 && hi.from_proc != rank;
    &&& replies_fit(replies, round.aggregated, lo_sent, hi_sent, split)
    &&& lo_sent && lo.to_proc != -1 ==> split <= first.len()
    &&& hi_sent && hi.to_proc != -1 ==> hi.send_indices@.len() * per_atom <= second.len()
}

/// Carries out the second half of a reverse round, with the replies in the order
/// in which the messages were sent.
pub fn reverse_round_finish<D: AtomData, F: Fn(Op, Scalar, Scalar, Scalar) -> Scalar>(
    swaps: &Vec<SwapData>,
    round: Round,
    replies: &Vec<Vec<Scalar>>,
    atoms: &mut Atom,
    registry: &mut AtomDataRegistry<D>,
    rank: i32,
    per_atom: usize,
    ar: &F,
)
    requires
        is_arithmetic(*ar),
        old(atoms).wf(),
        old(registry).wf(),
        old(registry).parallel_to(old(atoms).records().len() as int),
        per_atom == 3 + reverse_upto(old(registry).stores@, old(registry).stores@.len() as int),
        round_ok(swaps@, rank, round),
        forall|k: int|
            round.start <= k < round.end ==> reverse_fits(
                #[trigger] swaps@[k],
                old(atoms).records().len() as int,
                rank,
                per_atom as int,
            ),
        reverse_replies_fit(swaps@, round, rank, per_atom as int, replies@),
    ensures
        final(atoms).wf(),
        final(registry).wf(),
        final(registry).parallel_to(final(atoms).records().len() as int),
        final(atoms).records().len() == old(atoms).records().len(),
        3 + reverse_upto(final(registry).stores@, final(registry).stores@.len() as int) == per_atom,
        reverse_round_taken(
            *ar,
            swaps@,
            round,
            rank,
            per_atom as int,
            replies@,
            *old(atoms),
            *old(registry),
            *final(atoms),
            *final(registry),
        ),
{
    let lo: &SwapData = &swaps[round.start];
    let lo_sent: bool = lo.from_proc != rank;
    let hi_sent: bool = round.end - round.start == 2 && swaps[round.start + 1].from_proc != rank;
    let split: usize = lo.send_indices.len() * per_atom;
    if lo_sent {
        let words: &[Scalar] = reply_to(
            replies,
            round.aggregated,
            lo_sent,
            hi_sent,
            split,
            false,
        );
        reverse_finish_swap(lo, words, atoms, registry, per_atom, ar);
    }
    let ghost first: Seq<Scalar> = reply(
        replies@,
        round.aggregated,
        lo_sent,
        split as int,
        false,
    );
    proof {
        lemma_upto_alike(registry.stores@, old(registry).stores@, registry.stores@.len() as int);
        assert(reverse_answered(
            *ar,
            *lo,
            rank,
            first,
            *old(atoms),
            *old(registry),
            *atoms,
            *registry,
        ));
    }
    if hi_sent {
        let words: &[Scalar] = reply_to(replies, round.aggregated, lo_sent, hi_sent, split, true);
        reverse_finish_swap(&swaps[round.start + 1], words, atoms, registry, per_atom, ar);
    }
    proof {
        lemma_upto_alike(registry.stores@, old(registry).stores@, registry.stores@.len() as int);
    }
}

/// What a process sends for a swap is what its neighbour takes for that swap: whether the
/// two swaps of a round share a message, send one each, or only one of them sends.
pub proof fn replies_reach_their_swaps(
    aggregated: bool,
    lo: Option<Message>,
    hi: Option<Message>,
    out: Seq<Message>,
    replies: Seq<Vec<Scalar>>,
)
    requires
        round_sends(aggregated, lo, hi, out),
        aggregated ==> lo is Some && hi is Some,
        replies.len() == out.len(),
        forall|k: int| 0 <= k < out.len() ==> (#[trigger] replies[k])@ == out[k].send@,
    ensures
        ({
            let split = if lo is Some {
                lo->0.send@.len() as int
            } else {
                0
            };
            &&& replies_fit(replies, aggregated, lo is Some, hi is Some, split)
            &&& lo is Some ==> reply(replies, aggregated, lo is Some, split, false) == lo->0.send@
            &&& hi is Some ==> reply(replies, aggregated, lo is Some, split, true) == hi->0.send@
            &&& aggregated ==> out[0].recv_len == lo->0.recv_len + hi->0.recv_len
        }),
{
    if aggregated {
        let (a, b): (Seq<Scalar>, Seq<Scalar>) = (lo->0.send@, hi->0.send@);
        assert(replies[0]@ == out[0].send@);
        assert((a + b).take(a.len() as int) =~= a);
        assert((a + b).skip(a.len() as int) =~= b);
    }
}

} // verus!

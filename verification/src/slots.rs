//! Per-neighbor slots on the device: two copies that take turns, one being read
//! while the other is written.

use crate::device::{at_least_one, buffer_bytes, buffer_size, in_memory, word_bytes};
use vstd::prelude::*;

verus! {

/// The slots of one atom.
pub const MAX_CONTACTS: usize = 32;

/// The values of one slot.
pub const PAYLOAD: usize = 3;

/// The partner of an empty slot.
pub const SENTINEL: u32 = 0xFFFF_FFFF;

/// One of the two copies.
#[derive(Clone, Copy, PartialEq, Eq, Structural, Debug)]
pub enum Side {
    A,
    B,
}

impl Side {
    pub open spec fn opposite(self) -> Side {
        match self {
            Side::A => Side::B,
            Side::B => Side::A,
        }
    }
}

/// The slots of `n` atoms and which copy is whose turn.
pub struct NeighborSlots {
    pub n: usize,
    pub ping: bool,
}

impl NeighborSlots {
    /// The copy that a step reads.
    pub open spec fn reads(&self) -> Side {
        if self.ping {
            Side::B
        } else {
            Side::A
        }
    }

    pub fn new(n: usize) -> (r: NeighborSlots)
        ensures
            r.n == n,
            r.reads() == Side::A,
    {
        NeighborSlots { n, ping: false }
    }

    /// The copies that a step reads and writes.
    pub fn current(&self) -> (r: (Side, Side))
        ensures
            r.0 == self.reads(),
            r.1 == self.reads().opposite(),
    {
        if self.ping {
            (Side::B, Side::A)
        } else {
            (Side::A, Side::B)
        }
    }

    /// After a step: the copy that was written is read next.
    pub fn swap(&mut self)
        ensures
            final(self).n == old(self).n,
            final(self).reads() == old(self).reads().opposite(),
    {
        self.ping = !self.ping;
    }

    /// The copy that was written last.
    pub fn last_written(&self) -> (r: Side)
        ensures
            r == self.reads(),
    {
        if self.ping {
            Side::B
        } else {
            Side::A
        }
    }

    /// The sizes in bytes of a partner buffer and of a payload buffer.
    pub fn sizes(&self) -> (r: (u64, u64))
        requires
            buffer_size(self.n as int, MAX_CONTACTS * PAYLOAD) <= usize::MAX,
        ensures
            r.0 == buffer_size(self.n as int, MAX_CONTACTS as int),
            r.1 == buffer_size(self.n as int, MAX_CONTACTS * PAYLOAD),
    {
        proof {
            let items: int = at_least_one(self.n as int);
            assert(items * 32 * 4 <= items * 96 * 4) by (nonlinear_arith)
                requires
                    items >= 1,
            ;
        }
        (buffer_bytes(self.n, MAX_CONTACTS), buffer_bytes(self.n, MAX_CONTACTS * PAYLOAD))
    }

    /// The partners of slots that are all empty, as they are written to the
    /// device.
    pub fn empty_partners(&self) -> (r: Vec<u8>)
        requires
            self.n * MAX_CONTACTS <= usize::MAX,
        ensures
            in_memory(Seq::new((self.n * MAX_CONTACTS) as nat, |k: int| SENTINEL), r@),
    {
        let words: Vec<u32> = filled(SENTINEL, self.n * MAX_CONTACTS);
        word_bytes(words.as_slice())
    }

    /// The payload of slots that are all empty, as it is written to the device.
    pub fn empty_payload(&self) -> (r: Vec<u8>)
        requires
            self.n * MAX_CONTACTS * PAYLOAD <= usize::MAX,
        ensures
            in_memory(Seq::new((self.n * MAX_CONTACTS * PAYLOAD) as nat, |k: int| 0u32), r@),
    {
        let words: Vec<u32> = filled(0, self.n * MAX_CONTACTS * PAYLOAD);
        word_bytes(words.as_slice())
    }
}

fn filled(word: u32, count: usize) -> (r: Vec<u32>)
    ensures
        r@ == Seq::new(count as nat, |k: int| word),
{
    let mut out: Vec<u32> = Vec::new();
    let mut i: usize = 0;
    while i < count
        invariant
            i <= count,
            out@ =~= Seq::new(i as nat, |k: int| word),
        decreases count - i,
    {
        out.push(word);
        i = i + 1;
    }
    out
}

/// What a step writes, the next step reads; and after two steps the copies have
/// the same parts again.
pub proof fn written_slots_are_read_next(first: NeighborSlots, second: NeighborSlots, third: NeighborSlots)
    requires
        second.reads() == first.reads().opposite(),
        third.reads() == second.reads().opposite(),
    ensures
        second.reads() != first.reads(),
        third.reads() == first.reads(),
{
}

} // verus!

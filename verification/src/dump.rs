//! Snapshots of the atoms: what a frame holds, how frames of several processes
//! become one, and the three file formats.

use crate::scalar::{
    clamp_int, count_word, from_count, is_arithmetic, Op, Scalar, Vec3, FRACTION,
};
use crate::transport::{flat, joined, lemma_even_len, lemma_even_parts};
use vstd::prelude::*;
use vstd::string::*;

verus! {

/// How often and in which form snapshots are written.
pub struct DumpConfig {
    pub interval: usize,
    pub format: String,
    pub per_rank: bool,
    pub ghosts: bool,
}

impl Default for DumpConfig {
    fn default() -> (r: DumpConfig)
        ensures
            r.interval == 0,
            r.format@ == "text"@,
            !r.per_rank,
            !r.ghosts,
    {
        DumpConfig { interval: 0, format: "text".to_owned(), per_rank: false, ghosts: false }
    }
}

/// The simulation box of a snapshot.
#[derive(Clone, Copy)]
pub struct BoxInfo {
    pub low: Vec3,
    pub high: Vec3,
    pub periodic: [bool; 3],
}

/// The unit box, periodic in every direction.
pub open spec fn unit_box() -> BoxInfo {
    BoxInfo {
        low: [Scalar::zero(), Scalar::zero(), Scalar::zero()],
        high: [Scalar::one(), Scalar::one(), Scalar::one()],
        periodic: [true, true, true],
    }
}

impl Default for BoxInfo {
    fn default() -> (r: BoxInfo)
        ensures
            r == unit_box(),
    {
        BoxInfo {
            low: [Scalar::zero(), Scalar::zero(), Scalar::zero()],
            high: [Scalar::one(), Scalar::one(), Scalar::one()],
            periodic: [true, true, true],
        }
    }
}

/// A snapshot: one entry per atom in each column.
pub struct DumpFrame {
    pub step: usize,
    pub box_info: BoxInfo,
    pub path_stem: String,
    pub tag: Vec<u64>,
    pub atom_type: Vec<u64>,
    pub pos: Vec<Vec3>,
    pub vel: Vec<Vec3>,
    pub force: Vec<Vec3>,
    pub radius: Vec<Scalar>,
    pub scalars: Vec<(String, Vec<Scalar>)>,
    pub vectors: Vec<(String, Vec<Vec3>)>,
    pub is_ghost: Option<Vec<bool>>,
}


/// The entries that every snapshot holds of an atom: tag, type and radius, then
/// position, velocity and force.
pub const FIXED_ENTRIES: usize = 12;

pub open spec fn triple(v: Vec3) -> Seq<Scalar> {
    seq![v[0], v[1], v[2]]
}

/// The entries of atom `i` in the scalar columns.
pub open spec fn scalar_entries(columns: Seq<(String, Vec<Scalar>)>, i: int) -> Seq<Scalar> {
    Seq::new(columns.len(), |c: int| columns[c].1@[i])
}

/// The entries of atom `i` in the first `k` vector columns.
pub open spec fn vector_entries(columns: Seq<(String, Vec<Vec3>)>, i: int, k: int) -> Seq<Scalar>
    decreases k,
{
    if k <= 0 {
        seq![]
    } else {
        vector_entries(columns, i, k - 1) + triple(columns[k - 1].1@[i])
    }
}

/// A flag as a number.
pub open spec fn flag_word(flag: bool) -> Scalar {
    if flag {
        Scalar::one()
    } else {
        Scalar::zero()
    }
}

impl DumpFrame {
    /// The number of atoms.
    pub open spec fn count(&self) -> nat {
        self.tag@.len()
    }

    /// Every column has an entry for each atom.
    pub open spec fn wf(&self) -> bool {
        let n = self.count();
        &&& self.atom_type@.len() == n
        &&& self.pos@.len() == n
        &&& self.vel@.len() == n
        &&& self.force@.len() == n
        &&& self.radius@.len() == n
        &&& forall|c: int| 0 <= c < self.scalars@.len() ==> (#[trigger] self.scalars@[c]).1@.len() == n
        &&& forall|c: int| 0 <= c < self.vectors@.len() ==> (#[trigger] self.vectors@[c]).1@.len() == n
        &&& self.is_ghost matches Some(g) ==> g@.len() == n
    }

    /// The number of values of one atom in a message.
    pub open spec fn entry_size(&self) -> nat {
        FIXED_ENTRIES as nat + self.scalars@.len() + 3 * self.vectors@.len() + if self.is_ghost is Some {
            1nat
        } else {
            0nat
        }
    }

    /// Atom `i` in a message.
    pub open spec fn entry<F: Fn(Op, Scalar, Scalar, Scalar) -> Scalar>(&self, ar: F, i: int) -> Seq<Scalar> {
        seq![count_word(ar, self.tag@[i] as int), count_word(ar, self.atom_type@[i] as int), self.radius@[i]]
            + triple(self.pos@[i]) + triple(self.vel@[i]) + triple(self.force@[i]) + scalar_entries(
            self.scalars@,
            i,
        ) + vector_entries(self.vectors@, i, self.vectors@.len() as int) + match self.is_ghost {
            Some(g) => seq![flag_word(g@[i])],
            None => seq![],
        }
    }

    /// The message that holds every atom.
    pub open spec fn message<F: Fn(Op, Scalar, Scalar, Scalar) -> Scalar>(&self, ar: F) -> Seq<Scalar> {
        joined(Seq::new(self.count(), |i: int| self.entry(ar, i)))
    }

    /// The number of atoms.
    pub fn n(&self) -> (r: usize)
        ensures
            r == self.count(),
    {
        self.tag.len()
    }

    /// The number of values of one atom in a message.
    pub fn stride(&self) -> (r: usize)
        requires
            self.entry_size() <= usize::MAX,
        ensures
            r == self.entry_size(),
    {
        let flag: usize = if self.is_ghost.is_some() {
            1
        } else {
            0
        };
        FIXED_ENTRIES + self.scalars.len() + 3 * self.vectors.len() + flag
    }

    /// Writes every atom into one message.
    pub fn pack<F: Fn(Op, Scalar, Scalar, Scalar) -> Scalar>(&self, ar: &F) -> (r: Vec<Scalar>)
        requires
            is_arithmetic(*ar),
            self.wf(),
        ensures
            r@ == self.message(*ar),
    {
        let ghost parts: Seq<Seq<Scalar>> = Seq::new(self.count(), |i: int| self.entry(*ar, i));
        let mut buf: Vec<Scalar> = Vec::new();
        let mut i: usize = 0;
        assert(buf@ =~= flat(parts, 0));
        while i < self.tag.len()
            invariant
                is_arithmetic(*ar),
                self.wf(),
                i <= self.count(),
                parts == Seq::new(self.count(), |i: int| self.entry(*ar, i)),
                buf@ == flat(parts, i as int),
            decreases self.tag.len() - i,
        {
            self.pack_entry(i, &mut buf, ar);
            assert(parts[i as int] == self.entry(*ar, i as int));
            i = i + 1;
        }
        buf
    }

    fn pack_entry<F: Fn(Op, Scalar, Scalar, Scalar) -> Scalar>(
        &self,
        i: usize,
        buf: &mut Vec<Scalar>,
        ar: &F,
    )
        requires
            is_arithmetic(*ar),
            self.wf(),
            i < self.count(),
        ensures
            final(buf)@ == old(buf)@ + self.entry(*ar, i as int),
    {
        let ghost start: Seq<Scalar> = buf@;
        buf.push(from_count(ar, self.tag[i]));
        buf.push(from_count(ar, self.atom_type[i]));
        buf.push(self.radius[i]);
        push_triple(buf, self.pos[i]);
        push_triple(buf, self.vel[i]);
        push_triple(buf, self.force[i]);
        let ghost fixed: Seq<Scalar> = seq![
            count_word(*ar, self.tag@[i as int] as int),
            count_word(*ar, self.atom_type@[i as int] as int),
            self.radius@[i as int],
        ] + triple(self.pos@[i as int]) + triple(self.vel@[i as int]) + triple(self.force@[i as int]);
        assert(buf@ =~= start + fixed);
        let mut c: usize = 0;
        while c < self.scalars.len()
            invariant
                self.wf(),
                i < self.count(),
                c <= self.scalars@.len(),
                buf@ =~= start + fixed + scalar_entries(self.scalars@, i as int).take(c as int),
            decreases self.scalars.len() - c,
        {
            assert(self.scalars@[c as int].1@.len() == self.count());
            buf.push(self.scalars[c].1[i]);
            c = c + 1;
        }
        let ghost head: Seq<Scalar> = fixed + scalar_entries(self.scalars@, i as int);
        assert(buf@ =~= start + head + vector_entries(self.vectors@, i as int, 0));
        c = 0;
        while c < self.vectors.len()
            invariant
                self.wf(),
                i < self.count(),
                c <= self.vectors@.len(),
                buf@ == start + head + vector_entries(self.vectors@, i as int, c as int),
            decreases self.vectors.len() - c,
        {
            assert(self.vectors@[c as int].1@.len() == self.count());
            push_triple(buf, self.vectors[c].1[i]);
            assert(buf@ =~= start + head + vector_entries(self.vectors@, i as int, c + 1));
            c = c + 1;
        }
        if let Some(g) = &self.is_ghost {
            buf.push(
                if g[i] {
                    Scalar::one()
                } else {
                    Scalar::zero()
                },
            );
        }
        assert(buf@ =~= start + self.entry(*ar, i as int));
    }

    /// Entry `i` is what is read from the head of `chunk`.
    pub open spec fn reads_as(&self, i: int, chunk: Seq<Scalar>) -> bool {
        let s = self.scalars@.len() as int;
        let v = self.vectors@.len() as int;
        &&& self.tag@[i] == clamp_int(chunk[0].integer_part(), 0, u64::MAX as int)
        &&& self.atom_type@[i] == clamp_int(chunk[1].integer_part(), 0, u64::MAX as int)
        &&& self.radius@[i] == chunk[2]
        &&& triple(self.pos@[i]) == chunk.subrange(3, 6)
        &&& triple(self.vel@[i]) == chunk.subrange(6, 9)
        &&& triple(self.force@[i]) == chunk.subrange(9, 12)
        &&& forall|c: int| 0 <= c < s ==> (#[trigger] self.scalars@[c]).1@[i] == chunk[12 + c]
        &&& forall|c: int|
            0 <= c < v ==> triple((#[trigger] self.vectors@[c]).1@[i]) == chunk.subrange(
                12 + s + 3 * c,
                15 + s + 3 * c,
            )
        &&& self.is_ghost matches Some(g) ==> g@[i] == (chunk[12 + s + 3 * v].magnitude() != 0)
    }

    /// Entry `i` is entry `j` of `other`.
    pub open spec fn same_entry(&self, i: int, other: &DumpFrame, j: int) -> bool {
        &&& self.tag@[i] == other.tag@[j]
        &&& self.atom_type@[i] == other.atom_type@[j]
        &&& self.radius@[i] == other.radius@[j]
        &&& self.pos@[i] == other.pos@[j]
        &&& self.vel@[i] == other.vel@[j]
        &&& self.force@[i] == other.force@[j]
        &&& forall|c: int|
            0 <= c < self.scalars@.len() ==> (#[trigger] self.scalars@[c]).1@[i] == other.scalars@[c].1@[j]
        &&& forall|c: int|
            0 <= c < self.vectors@.len() ==> (#[trigger] self.vectors@[c]).1@[i] == other.vectors@[c].1@[j]
        &&& self.is_ghost matches Some(g) ==> g@[i] == other.is_ghost->0@[j]
    }

    /// As many columns of each kind.
    pub open spec fn same_column_counts(&self, other: &DumpFrame) -> bool {
        &&& self.scalars@.len() == other.scalars@.len()
        &&& self.vectors@.len() == other.vectors@.len()
        &&& self.is_ghost is Some <==> other.is_ghost is Some
    }

    /// The same columns under the same names.
    pub open spec fn same_columns(&self, other: &DumpFrame) -> bool {
        &&& self.scalars@.len() == other.scalars@.len()
        &&& forall|c: int|
            0 <= c < self.scalars@.len() ==> (#[trigger] self.scalars@[c]).0@ == other.scalars@[c].0@
        &&& self.vectors@.len() == other.vectors@.len()
        &&& forall|c: int|
            0 <= c < self.vectors@.len() ==> (#[trigger] self.vectors@[c]).0@ == other.vectors@[c].0@
        &&& self.is_ghost is Some <==> other.is_ghost is Some
    }

    /// `self` is `before` with the atoms of the message at its end. What is left
    /// of the message behind its last whole atom is ignored.
    pub open spec fn appended(&self, before: &DumpFrame, buf: Seq<Scalar>) -> bool {
        let n = before.count() as int;
        let size = before.entry_size() as int;
        &&& self.wf()
        &&& self.step == before.step
        &&& self.box_info == before.box_info
        &&& self.path_stem == before.path_stem
        &&& self.same_columns(before)
        &&& self.count() == n + buf.len() as int / size
        &&& forall|i: int| 0 <= i < n ==> #[trigger] self.same_entry(i, before, i)
        &&& forall|j: int|
            0 <= j < buf.len() as int / size ==> #[trigger] self.reads_as(n + j, buf.skip(j * size))
    }
}

/// An entry that has not changed still reads the same.
proof fn lemma_entry_stays(new: DumpFrame, mid: DumpFrame, i: int, chunk: Seq<Scalar>)
    requires
        new.same_columns(&mid),
        new.same_entry(i, &mid, i),
        mid.reads_as(i, chunk),
    ensures
        new.reads_as(i, chunk),
{
    assert forall|c: int| 0 <= c < new.scalars@.len() implies (#[trigger] new.scalars@[c]).1@[i]
        == chunk[12 + c] by {
        assert(mid.scalars@[c].1@[i] == chunk[12 + c]);
    }
    let s: int = new.scalars@.len() as int;
    assert forall|c: int| 0 <= c < new.vectors@.len() implies triple((#[trigger] new.vectors@[c]).1@[i])
        == chunk.subrange(12 + s + 3 * c, 15 + s + 3 * c) by {
        assert(triple(mid.vectors@[c].1@[i]) == chunk.subrange(12 + s + 3 * c, 15 + s + 3 * c));
    }
}

/// Entries that stay twice stay.
proof fn lemma_entry_chain(new: DumpFrame, mid: DumpFrame, old_frame: DumpFrame, i: int)
    requires
        new.same_columns(&mid),
        mid.same_columns(&old_frame),
        new.same_entry(i, &mid, i),
        mid.same_entry(i, &old_frame, i),
    ensures
        new.same_entry(i, &old_frame, i),
{
    assert forall|c: int| 0 <= c < new.scalars@.len() implies (#[trigger] new.scalars@[c]).1@[i]
        == old_frame.scalars@[c].1@[i] by {
        assert(mid.scalars@[c].1@[i] == old_frame.scalars@[c].1@[i]);
    }
    assert forall|c: int| 0 <= c < new.vectors@.len() implies (#[trigger] new.vectors@[c]).1@[i]
        == old_frame.vectors@[c].1@[i] by {
        assert(mid.vectors@[c].1@[i] == old_frame.vectors@[c].1@[i]);
    }
}

impl DumpFrame {
    fn push_entry(&mut self, buf: &Vec<Scalar>, at: usize)
        requires
            old(self).wf(),
            at + old(self).entry_size() <= buf@.len(),
        ensures
            final(self).wf(),
            final(self).step == old(self).step,
            final(self).box_info == old(self).box_info,
            final(self).path_stem == old(self).path_stem,
            final(self).same_columns(old(self)),
            final(self).count() == old(self).count() + 1,
            forall|i: int|
                0 <= i < old(self).count() ==> #[trigger] final(self).same_entry(i, old(self), i),
            final(self).reads_as(old(self).count() as int, buf@.skip(at as int)),
    {
        let len: usize = buf.len();
        let ghost n: int = self.count() as int;
        let ghost s: int = self.scalars@.len() as int;
        let ghost chunk: Seq<Scalar> = buf@.skip(at as int);
        let ghost before: DumpFrame = *self;
        self.tag.push(buf[at].to_u64());
        self.atom_type.push(buf[at + 1].to_u64());
        self.radius.push(buf[at + 2]);
        self.pos.push([buf[at + 3], buf[at + 4], buf[at + 5]]);
        self.vel.push([buf[at + 6], buf[at + 7], buf[at + 8]]);
        self.force.push([buf[at + 9], buf[at + 10], buf[at + 11]]);
        let ghost fixed: DumpFrame = *self;
        let mut k: usize = at + 12;
        let mut c: usize = 0;
        while c < self.scalars.len()
            invariant
                before.wf(),
                len == buf@.len(),
                chunk == buf@.skip(at as int),
                at + before.entry_size() <= buf@.len(),
                n == before.count(),
                s == before.scalars@.len(),
                c <= s == self.scalars@.len(),
                k == at + 12 + c,
                *self == (DumpFrame { scalars: self.scalars, ..fixed }),
                fixed.vectors == before.vectors,
                fixed.is_ghost == before.is_ghost,
                forall|j: int|
                    0 <= j < s ==> (#[trigger] self.scalars@[j]).0 == before.scalars@[j].0
                        && self.scalars@[j].1@ == if j < c {
                        before.scalars@[j].1@.push(chunk[12 + j])
                    } else {
                        before.scalars@[j].1@
                    },
            decreases self.scalars.len() - c,
        {
            self.scalars[c].1.push(buf[k]);
            k = k + 1;
            c = c + 1;
        }
        let ghost mid: DumpFrame = *self;
        let ghost v: int = self.vectors@.len() as int;
        c = 0;
        while c < self.vectors.len()
            invariant
                before.wf(),
                len == buf@.len(),
                chunk == buf@.skip(at as int),
                at + before.entry_size() <= buf@.len(),
                n == before.count(),
                s == before.scalars@.len(),
                v == before.vectors@.len(),
                c <= v == self.vectors@.len(),
                k == at + 12 + s + 3 * c,
                *self == (DumpFrame { vectors: self.vectors, ..mid }),
                mid.is_ghost == before.is_ghost,
                forall|j: int|
                    0 <= j < v ==> (#[trigger] self.vectors@[j]).0 == before.vectors@[j].0
                        && self.vectors@[j].1@ == if j < c {
                        before.vectors@[j].1@.push(
                            [
                                chunk[12 + s + 3 * j],
                                chunk[13 + s + 3 * j],
                                chunk[14 + s + 3 * j],
                            ],
                        )
                    } else {
                        before.vectors@[j].1@
                    },
            decreases self.vectors.len() - c,
        {
            self.vectors[c].1.push([buf[k], buf[k + 1], buf[k + 2]]);
            k = k + 3;
            c = c + 1;
        }
        let ghost last: DumpFrame = *self;
        match &mut self.is_ghost {
            Some(g) => {
                g.push(!buf[k].is_zero());
            },
            None => {},
        }
        proof {
            assert(self.is_ghost is Some ==> self.is_ghost->0@ == before.is_ghost->0@.push(
                chunk[12 + s + 3 * v].magnitude() != 0,
            ));
            assert(triple(self.pos@[n]) =~= chunk.subrange(3, 6));
            assert(triple(self.vel@[n]) =~= chunk.subrange(6, 9));
            assert(triple(self.force@[n]) =~= chunk.subrange(9, 12));
            assert forall|j: int| 0 <= j < v implies triple((#[trigger] self.vectors@[j]).1@[n])
                == chunk.subrange(12 + s + 3 * j, 15 + s + 3 * j) by {
                assert(triple(self.vectors@[j].1@[n]) =~= chunk.subrange(
                    12 + s + 3 * j,
                    15 + s + 3 * j,
                ));
            }
            assert(self.reads_as(n, chunk));
        }
    }

    /// Reads the atoms of a message and puts them at the end.
    pub fn push_unpacked(&mut self, buf: &Vec<Scalar>)
        requires
            old(self).wf(),
            old(self).entry_size() <= usize::MAX,
        ensures
            final(self).appended(old(self), buf@),
    {
        let stride: usize = self.stride();
        let ghost before: DumpFrame = *self;
        let ghost n: int = self.count() as int;
        let ghost mut j: int = 0;
        let mut at: usize = 0;
        while buf.len() - at >= stride
            invariant
                at <= buf@.len(),
                0 <= j,
                at == j * stride,
                before.wf(),
                n == before.count(),
                stride == before.entry_size(),
                stride > 0,
                self.wf(),
                self.step == before.step,
                self.box_info == before.box_info,
                self.path_stem == before.path_stem,
                self.same_columns(&before),
                self.count() == n + j,
                forall|i: int| 0 <= i < n ==> #[trigger] self.same_entry(i, &before, i),
                forall|m: int|
                    0 <= m < j ==> #[trigger] self.reads_as(n + m, buf@.skip(m * stride)),
            decreases buf.len() - at,
        {
            let ghost mid: DumpFrame = *self;
            self.push_entry(buf, at);
            proof {
                assert forall|i: int| 0 <= i < n implies #[trigger] self.same_entry(i, &before, i) by {
                    assert(mid.same_entry(i, &before, i));
                    assert(self.same_entry(i, &mid, i));
                    lemma_entry_chain(*self, mid, before, i);
                }
                assert forall|m: int| 0 <= m < j + 1 implies #[trigger] self.reads_as(
                    n + m,
                    buf@.skip(m * stride),
                ) by {
                    if m < j {
                        assert(mid.reads_as(n + m, buf@.skip(m * stride)));
                        assert(self.same_entry(n + m, &mid, n + m));
                        lemma_entry_stays(*self, mid, n + m, buf@.skip(m * stride));
                    }
                }
                assert((j + 1) * stride == j * stride + stride) by (nonlinear_arith);
                j = j + 1;
            }
            at = at + stride;
        }
        proof {
            vstd::arithmetic::div_mod::lemma_fundamental_div_mod_converse(
                buf@.len() as int,
                stride as int,
                j,
                buf@.len() - at,
            );
        }
    }
}

/// Writes three numbers.
fn push_triple(buf: &mut Vec<Scalar>, v: Vec3)
    ensures
        final(buf)@ == old(buf)@ + triple(v),
{
    buf.push(v[0]);
    buf.push(v[1]);
    buf.push(v[2]);
    assert(buf@ =~= old(buf)@ + triple(v));
}


pub proof fn lemma_vector_entries(columns: Seq<(String, Vec<Vec3>)>, i: int, k: int, c: int)
    requires
        0 <= k,
    ensures
        vector_entries(columns, i, k).len() == 3 * k,
        0 <= c < k ==> vector_entries(columns, i, k).subrange(3 * c, 3 * c + 3) == triple(
            columns[c].1@[i],
        ),
    decreases k,
{
    if k > 0 {
        lemma_vector_entries(columns, i, k - 1, c);
        let all: Seq<Scalar> = vector_entries(columns, i, k);
        if c == k - 1 {
            assert(all.subrange(3 * c, 3 * c + 3) =~= triple(columns[c].1@[i]));
        } else if 0 <= c < k {
            assert(all.subrange(3 * c, 3 * c + 3) =~= vector_entries(columns, i, k - 1).subrange(
                3 * c,
                3 * c + 3,
            ));
        }
    }
}

/// The parts of an entry, by their places.
proof fn lemma_entry_parts<F: Fn(Op, Scalar, Scalar, Scalar) -> Scalar>(ar: F, f: DumpFrame, i: int)
    requires
        f.wf(),
        0 <= i < f.count(),
    ensures
        ({
            let e = f.entry(ar, i);
            let s = f.scalars@.len() as int;
            let v = f.vectors@.len() as int;
            &&& e.len() == f.entry_size()
            &&& e[0] == count_word(ar, f.tag@[i] as int)
            &&& e[1] == count_word(ar, f.atom_type@[i] as int)
            &&& e[2] == f.radius@[i]
            &&& e.subrange(3, 6) == triple(f.pos@[i])
            &&& e.subrange(6, 9) == triple(f.vel@[i])
            &&& e.subrange(9, 12) == triple(f.force@[i])
            &&& forall|c: int| 0 <= c < s ==> e[12 + c] == (#[trigger] f.scalars@[c]).1@[i]
            &&& forall|c: int|
                0 <= c < v ==> e.subrange(12 + s + 3 * c, 15 + s + 3 * c) == triple(
                    (#[trigger] f.vectors@[c]).1@[i],
                )
            &&& f.is_ghost matches Some(g) ==> e[12 + s + 3 * v] == flag_word(g@[i])
        }),
{
    let e: Seq<Scalar> = f.entry(ar, i);
    let s: int = f.scalars@.len() as int;
    let v: int = f.vectors@.len() as int;
    lemma_vector_entries(f.vectors@, i, v, 0);
    assert(e.subrange(3, 6) =~= triple(f.pos@[i]));
    assert(e.subrange(6, 9) =~= triple(f.vel@[i]));
    assert(e.subrange(9, 12) =~= triple(f.force@[i]));
    assert forall|c: int| 0 <= c < v implies e.subrange(12 + s + 3 * c, 15 + s + 3 * c) == triple(
        (#[trigger] f.vectors@[c]).1@[i],
    ) by {
        lemma_vector_entries(f.vectors@, i, v, c);
        assert(e.subrange(12 + s + 3 * c, 15 + s + 3 * c) =~= vector_entries(
            f.vectors@,
            i,
            v,
        ).subrange(3 * c, 3 * c + 3));
    }
}

proof fn lemma_same_triple(a: Vec3, b: Vec3)
    requires
        triple(a) == triple(b),
    ensures
        a == b,
{
    assert(triple(a)[0] == a[0] && triple(b)[0] == b[0]);
    assert(triple(a)[1] == a[1] && triple(b)[1] == b[1]);
    assert(triple(a)[2] == a[2] && triple(b)[2] == b[2]);
    assert(a =~= b);
}

/// Every tag and type fits a number exactly.
pub open spec fn exact_tags(f: DumpFrame) -> bool {
    forall|i: int|
        0 <= i < f.count() ==> #[trigger] f.tag@[i] <= 2 * FRACTION && f.atom_type@[i] <= 2 * FRACTION
}

/// Gathering keeps every atom: a frame to which the message of another frame
/// with as many columns was appended holds the atoms of the first and then
/// the atoms of the other, in order and unchanged, and is otherwise the first. The
/// message has one entry for each atom.
pub proof fn gathered_atoms_arrive<F: Fn(Op, Scalar, Scalar, Scalar) -> Scalar>(
    ar: F,
    first: DumpFrame,
    other: DumpFrame,
    whole: DumpFrame,
)
    requires
        first.wf(),
        other.wf(),
        other.same_column_counts(&first),
        exact_tags(other),
        whole.appended(&first, other.message(ar)),
    ensures
        other.message(ar).len() == other.count() * other.entry_size(),
        whole.wf(),
        whole.same_columns(&first),
        whole.step == first.step,
        whole.box_info == first.box_info,
        whole.path_stem == first.path_stem,
        whole.count() == first.count() + other.count(),
        forall|i: int| 0 <= i < first.count() ==> #[trigger] whole.same_entry(i, &first, i),
        forall|j: int|
            #![trigger other.tag@[j]]
            0 <= j < other.count() ==> whole.same_entry(first.count() + j, &other, j),
{
    let n: int = first.count() as int;
    let m: int = other.count() as int;
    let size: int = first.entry_size() as int;
    let parts: Seq<Seq<Scalar>> = Seq::new(other.count(), |i: int| other.entry(ar, i));
    let buf: Seq<Scalar> = other.message(ar);
    assert forall|k: int| 0 <= k < parts.len() implies (#[trigger] parts[k]).len() == size by {
        lemma_entry_parts(ar, other, k);
    }
    lemma_even_len(parts, size, m);
    vstd::arithmetic::div_mod::lemma_fundamental_div_mod_converse(buf.len() as int, size, m, 0);
    assert forall|j: int|
        #![trigger other.tag@[j]]
        0 <= j < m implies whole.same_entry(n + j, &other, j) by {
        lemma_entry_parts(ar, other, j);
        let e: Seq<Scalar> = other.entry(ar, j);
        let chunk: Seq<Scalar> = buf.skip(j * size);
        assert(parts[j] == e);
        lemma_even_parts(parts, size, j, 0);
        lemma_even_parts(parts, size, j, size - 1);
        assert forall|x: int| 0 <= x < size implies chunk[x] == e[x] by {
            lemma_even_parts(parts, size, j, x);
        }
        assert(whole.reads_as(n + j, chunk));
        let s: int = first.scalars@.len() as int;
        let v: int = first.vectors@.len() as int;
        crate::bond::lemma_int_word(other.tag@[j] as int);
        crate::bond::lemma_int_word(other.atom_type@[j] as int);
        assert(chunk.subrange(3, 6) =~= e.subrange(3, 6));
        assert(chunk.subrange(6, 9) =~= e.subrange(6, 9));
        assert(chunk.subrange(9, 12) =~= e.subrange(9, 12));
        lemma_same_triple(whole.pos@[n + j], other.pos@[j]);
        lemma_same_triple(whole.vel@[n + j], other.vel@[j]);
        lemma_same_triple(whole.force@[n + j], other.force@[j]);
        assert forall|c: int| 0 <= c < whole.scalars@.len() implies (#[trigger] whole.scalars@[c]).1@[n + j]
            == other.scalars@[c].1@[j] by {
            assert(chunk[12 + c] == e[12 + c]);
        }
        assert forall|c: int| 0 <= c < whole.vectors@.len() implies (#[trigger] whole.vectors@[c]).1@[n + j]
            == other.vectors@[c].1@[j] by {
            assert(chunk.subrange(12 + s + 3 * c, 15 + s + 3 * c) =~= e.subrange(
                12 + s + 3 * c,
                15 + s + 3 * c,
            ));
            lemma_same_triple(whole.vectors@[c].1@[n + j], other.vectors@[c].1@[j]);
        }
    }
}

} // verus!

//! Sizing and addressing of device memory: buffer sizes, dispatch counts and
//! the bytes that travel to and from the device.

use crate::atom::Atom;
use crate::scalar::{Scalar, Vec3};
use crate::transport::{joined, lemma_even_len};
use vstd::bytes::spec_u32_to_le_bytes;
use vstd::prelude::*;

verus! {

/// The threads of one workgroup.
pub const WORKGROUP_SIZE: u32 = 64;

/// The bytes of one position, velocity or force on the device.
pub const STRIDE3: u64 = 12;

/// The number of workgroups that cover `n` threads; at least one.
pub open spec fn groups_for(n: int) -> int {
    if n <= 0 {
        1
    } else {
        (n + 63) / 64
    }
}

/// The number of workgroups that cover `n` threads; at least one.
pub fn workgroups(n: u32) -> (r: u32)
    ensures
        r == groups_for(n as int),
{
    let whole: u32 = n / WORKGROUP_SIZE;
    let groups: u32 = if n % WORKGROUP_SIZE > 0 {
        whole + 1
    } else {
        whole
    };
    if groups == 0 {
        1
    } else {
        groups
    }
}

/// A dispatch gives every atom a thread, and no workgroup is without work.
pub proof fn every_atom_has_a_thread(n: int)
    requires
        n >= 0,
    ensures
        groups_for(n) * WORKGROUP_SIZE >= n,
        groups_for(n) >= 1,
        n > 0 ==> (groups_for(n) - 1) * WORKGROUP_SIZE < n,
{
}

pub open spec fn at_least_one(n: int) -> int {
    if n <= 0 {
        1
    } else {
        n
    }
}

/// The size in bytes of a buffer with `per_item` four-byte values for each of
/// `n` items; never zero.
pub open spec fn buffer_size(n: int, per_item: int) -> int {
    at_least_one(n) * per_item * 4
}

/// The size in bytes of a buffer with `per_item` four-byte values for each of
/// `n` items; never zero.
pub fn buffer_bytes(n: usize, per_item: usize) -> (r: u64)
    requires
        buffer_size(n as int, per_item as int) <= usize::MAX,
    ensures
        r == buffer_size(n as int, per_item as int),
{
    let items: usize = if n == 0 {
        1
    } else {
        n
    };
    assert(0 <= items * per_item <= items * per_item * 4) by (nonlinear_arith)
        requires
            items >= 0,
            per_item >= 0,
    ;
    (items * per_item * 4) as u64
}

/// Where atom `start` begins in a buffer of three-vectors.
pub fn slice_offset(start: usize) -> (r: u64)
    requires
        start * STRIDE3 <= u64::MAX,
    ensures
        r == start * STRIDE3,
{
    start as u64 * STRIDE3
}

/// The components of some vectors, one after the other.
pub open spec fn components(v: Seq<Vec3>) -> Seq<Scalar> {
    Seq::new(3 * v.len(), |k: int| v[k / 3][k % 3])
}

/// The components of the vectors, one after the other.
pub fn flat3(v: &[Vec3]) -> (r: Vec<Scalar>)
    ensures
        r@ == components(v@),
{
    let mut out: Vec<Scalar> = Vec::new();
    let mut i: usize = 0;
    while i < v.len()
        invariant
            i <= v@.len(),
            out@ =~= components(v@.take(i as int)),
        decreases v.len() - i,
    {
        out.push(v[i][0]);
        out.push(v[i][1]);
        out.push(v[i][2]);
        i = i + 1;
    }
    assert(v@.take(i as int) =~= v@);
    out
}

/// The vectors whose components stand in `values`; what is left behind the last
/// whole vector is ignored.
pub open spec fn vectors(values: Seq<Scalar>) -> Seq<Vec3> {
    Seq::new(values.len() / 3, |i: int| [values[3 * i], values[3 * i + 1], values[3 * i + 2]])
}

/// Reads vectors from their components.
pub fn group3(values: &[Scalar]) -> (r: Vec<Vec3>)
    ensures
        r@ == vectors(values@),
{
    let mut out: Vec<Vec3> = Vec::new();
    let mut at: usize = 0;
    let n: usize = values.len();
    while n - at >= 3
        invariant
            n == values@.len(),
            at <= n,
            at == 3 * out@.len(),
            out@ =~= Seq::new(
                out@.len(),
                |i: int| [values@[3 * i], values@[3 * i + 1], values@[3 * i + 2]],
            ),
        decreases n - at,
    {
        out.push([values[at], values[at + 1], values[at + 2]]);
        at = at + 3;
    }
    assert(out@ =~= vectors(values@));
    out
}

/// Takes over what was read from the device for the first `n` atoms.
pub fn take_over(dst: &mut Vec<Vec3>, n: usize, src: &Vec<Vec3>)
    requires
        n <= old(dst)@.len(),
    ensures
        final(dst)@ == Seq::new(
            old(dst)@.len(),
            |i: int|
                if i < n && i < src@.len() {
                    src@[i]
                } else {
                    old(dst)@[i]
                },
        ),
{
    let ghost before: Seq<Vec3> = dst@;
    let mut i: usize = 0;
    while i < n && i < src.len()
        invariant
            i <= n <= before.len(),
            i <= src@.len(),
            dst@.len() == before.len(),
            forall|k: int|
                0 <= k < before.len() ==> #[trigger] dst@[k] == if k < i {
                    src@[k]
                } else {
                    before[k]
                },
        decreases n - i,
    {
        dst.set(i, src[i]);
        i = i + 1;
    }
    assert(dst@ =~= Seq::new(
        before.len(),
        |k: int|
            if k < n && k < src@.len() {
                src@[k]
            } else {
                before[k]
            },
    ));
}

/// Component `d` of vector `i` stands at `3 * i + d`.
pub proof fn components_stand_in_order(v: Seq<Vec3>, i: int, d: int)
    requires
        0 <= i < v.len(),
        0 <= d < 3,
    ensures
        components(v).len() == 3 * v.len(),
        components(v)[3 * i + d] == v[i][d],
{
    assert((3 * i + d) / 3 == i && (3 * i + d) % 3 == d);
}

/// What was flattened is grouped again as it was.
pub proof fn flattened_vectors_return(v: Seq<Vec3>)
    ensures
        vectors(components(v)) == v,
{
    let back: Seq<Vec3> = vectors(components(v));
    assert forall|i: int| 0 <= i < v.len() implies back[i] == v[i] by {
        assert((3 * i) / 3 == i && (3 * i) % 3 == 0);
        assert((3 * i + 1) / 3 == i && (3 * i + 1) % 3 == 1);
        assert((3 * i + 2) / 3 == i && (3 * i + 2) % 3 == 2);
        assert(back[i] =~= v[i]);
    }
    assert(back =~= v);
}

/// The four bytes of a word, lowest first.
pub open spec fn low_first(words: Seq<u32>) -> Seq<u8> {
    joined(Seq::new(words.len(), |k: int| spec_u32_to_le_bytes(words[k])))
}

/// The four bytes of a word, highest first.
pub open spec fn high_first(words: Seq<u32>) -> Seq<u8> {
    joined(Seq::new(words.len(), |k: int| spec_u32_to_le_bytes(words[k]).reverse()))
}

/// `bytes` are these words in the byte order of some machine.
pub open spec fn in_memory(words: Seq<u32>, bytes: Seq<u8>) -> bool {
    bytes == low_first(words) || bytes == high_first(words)
}

/// `bytemuck::cast_slice`, from words to bytes: the memory of the words, in the
/// byte order of the machine. From words to bytes the call does not fail.
#[verifier::external_body]
fn cast_words(words: &[u32]) -> (r: Vec<u8>)
    ensures
        in_memory(words@, r@),
{
    bytemuck::cast_slice::<u32, u8>(words).to_vec()
}

/// `bytemuck::pod_collect_to_vec`, from bytes to words: the words whose memory
/// these bytes are, in the byte order of the machine. Of bytes that are no whole
/// number of words it would fill up the last word.
#[verifier::external_body]
fn collect_words(bytes: &[u8]) -> (r: Vec<u32>)
    requires
        bytes@.len() % 4 == 0,
    ensures
        in_memory(r@, bytes@),
{
    bytemuck::pod_collect_to_vec::<u8, u32>(bytes)
}

/// Words take four bytes each, whatever their order.
proof fn lemma_memory_size(words: Seq<u32>, bytes: Seq<u8>)
    requires
        in_memory(words, bytes),
    ensures
        bytes.len() == 4 * words.len(),
{
    vstd::bytes::lemma_auto_spec_u32_to_from_le_bytes();
    let low: Seq<Seq<u8>> = Seq::new(words.len(), |k: int| spec_u32_to_le_bytes(words[k]));
    let high: Seq<Seq<u8>> = Seq::new(
        words.len(),
        |k: int| spec_u32_to_le_bytes(words[k]).reverse(),
    );
    lemma_even_len(low, 4, words.len() as int);
    lemma_even_len(high, 4, words.len() as int);
}

/// The bytes that are written to the device for some words.
pub fn word_bytes(words: &[u32]) -> (r: Vec<u8>)
    ensures
        in_memory(words@, r@),
{
    cast_words(words)
}

/// The first `count` words of what was read from the device; `None` where it
/// holds no whole number of words, or too few.
pub fn read_words(bytes: &[u8], count: usize) -> (r: Option<Vec<u32>>)
    ensures
        r is None <==> bytes@.len() % 4 != 0 || bytes@.len() < 4 * count,
        r matches Some(words) ==> exists|all: Seq<u32>| #[trigger]
            in_memory(all, bytes@) && words@ == all.take(count as int),
{
    if bytes.len() % 4 != 0 {
        return None;
    }
    let words: Vec<u32> = collect_words(bytes);
    proof {
        lemma_memory_size(words@, bytes@);
    }
    first_words(words, count)
}

/// The first `count` words; `None` where there are fewer.
pub fn first_words(words: Vec<u32>, count: usize) -> (r: Option<Vec<u32>>)
    ensures
        match r {
            Some(w) => count <= words@.len() && w@ == words@.take(count as int),
            None => count > words@.len(),
        },
{
    if words.len() < count {
        return None;
    }
    let mut out: Vec<u32> = Vec::new();
    let mut i: usize = 0;
    while i < count
        invariant
            i <= count <= words@.len(),
            out@ =~= words@.take(i as int),
        decreases count - i,
    {
        out.push(words[i]);
        i = i + 1;
    }
    Some(out)
}

/// The adapter that a process uses: the processes of a machine are dealt out to
/// its adapters in turn. `None` leaves the choice to the driver.
pub fn adapter_index(local_rank: usize, adapters: usize) -> (r: Option<usize>)
    ensures
        match r {
            Some(k) => adapters > 0 && k == local_rank % adapters && k < adapters,
            None => adapters == 0,
        },
{
    if adapters == 0 {
        None
    } else {
        Some(local_rank % adapters)
    }
}

/// What has to happen to the device buffers before a step.
#[derive(Clone, Copy, PartialEq, Eq, Structural, Debug)]
pub enum Sizing {
    /// There is nothing to integrate.
    Skip,
    /// The buffers fit.
    Keep,
    /// Buffers for the current number of atoms have to be made.
    Build,
}

/// Whether the buffers, made for `sized` atoms, fit the local atoms.
pub fn ensure_sized(sized: Option<usize>, atoms: &Atom) -> (r: Sizing)
    ensures
        r == (if atoms.nlocal == 0 {
            Sizing::Skip
        } else if sized == Some(atoms.nlocal as usize) {
            Sizing::Keep
        } else {
            Sizing::Build
        }),
{
    let n: usize = atoms.nlocal as usize;
    if n == 0 {
        return Sizing::Skip;
    }
    match sized {
        Some(k) => if k == n {
            Sizing::Keep
        } else {
            Sizing::Build
        },
        None => Sizing::Build,
    }
}

} // verus!

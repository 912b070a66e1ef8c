//! Per-atom extension data and the registry that keeps it in step with the atoms.

use crate::scalar::{is_arithmetic, summing, Op, Scalar};
use vstd::prelude::*;

verus! {

/// One column of extension data: how many numbers it holds per atom and in
/// which kinds of communication it takes part.
#[derive(Clone, Copy, PartialEq, Eq, Structural, Debug)]
pub struct Field {
    pub width: usize,
    pub forward: bool,
    pub reverse: bool,
    pub zero: bool,
}

/// Data that is stored per atom, parallel to the atom arrays.
///
/// A store is described by its rows: row `i` is what `pack` writes for atom
/// `i`. Removing, reordering and appending atoms act on whole rows, so a store
/// that follows every structural change of the atoms stays parallel to them.
pub trait AtomData: Sized {
    /// The columns; no operation changes them.
    spec fn shape(&self) -> Seq<Field>;

    /// The store's invariant.
    spec fn valid(&self) -> bool;

    /// The packed record of each atom.
    spec fn rows(&self) -> Seq<Seq<Scalar>>;

    /// Whether an index without a record is accepted.
    spec fn lenient(&self) -> bool;

    /// What is packed for an index without a record.
    spec fn blank() -> Seq<Scalar>;

    /// A record can be read from the head of `buf`.
    spec fn readable(shape: Seq<Field>, buf: Seq<Scalar>) -> bool;

    /// The length of the record at the head of `buf`.
    spec fn taken(shape: Seq<Field>, buf: Seq<Scalar>) -> nat;

    /// The row that reading the head of `buf` appends.
    spec fn read(shape: Seq<Field>, buf: Seq<Scalar>) -> Seq<Scalar>;

    /// The numbers of a row that owners send to their ghosts.
    spec fn forward_part(shape: Seq<Field>, row: Seq<Scalar>) -> Seq<Scalar>;

    /// The row after a ghost received `words` from its owner.
    spec fn with_forward(shape: Seq<Field>, row: Seq<Scalar>, words: Seq<Scalar>) -> Seq<Scalar>;

    /// The length of `forward_part`.
    spec fn forward_size(shape: Seq<Field>) -> nat;

    /// The numbers of a row that ghosts send back to their owners.
    spec fn reverse_part(shape: Seq<Field>, row: Seq<Scalar>) -> Seq<Scalar>;

    /// The row after an owner added `words` from one of its ghosts.
    spec fn with_reverse(
        shape: Seq<Field>,
        row: Seq<Scalar>,
        words: Seq<Scalar>,
        plus: spec_fn(Scalar, Scalar) -> Scalar,
    ) -> Seq<Scalar>;

    /// The length of `reverse_part`.
    spec fn reverse_size(shape: Seq<Field>) -> nat;

    /// The row with its accumulators cleared.
    spec fn zeroed(shape: Seq<Field>, row: Seq<Scalar>) -> Seq<Scalar>;

    /// A packed record reads back as itself, whatever follows it.
    proof fn record_round_trip(&self, i: int, rest: Seq<Scalar>)
        requires
            self.valid(),
            0 <= i < self.rows().len(),
        ensures
            Self::readable(self.shape(), self.rows()[i] + rest),
            Self::taken(self.shape(), self.rows()[i] + rest) == self.rows()[i].len(),
            Self::read(self.shape(), self.rows()[i] + rest) == self.rows()[i],
    ;

    /// Messages have the announced length.
    proof fn message_sizes(&self, i: int)
        requires
            self.valid(),
            0 <= i < self.rows().len(),
        ensures
            Self::forward_part(self.shape(), self.rows()[i]).len() == Self::forward_size(self.shape()),
            Self::reverse_part(self.shape(), self.rows()[i]).len() == Self::reverse_size(self.shape()),
    ;

    /// A ghost that took a forward message over would send the same message.
    proof fn forward_arrives(&self, i: int, words: Seq<Scalar>)
        requires
            self.valid(),
            0 <= i < self.rows().len(),
            words.len() == Self::forward_size(self.shape()),
        ensures
            Self::forward_part(
                self.shape(),
                Self::with_forward(self.shape(), self.rows()[i], words),
            ) == words,
    ;

    /// Keeps the first `n` records.
    fn truncate(&mut self, n: usize)
        requires
            old(self).valid(),
        ensures
            final(self).valid(),
            final(self).shape() == old(self).shape(),
            final(self).lenient() == old(self).lenient(),
            n <= old(self).rows().len() ==> final(self).rows() == old(self).rows().take(n as int),
            n > old(self).rows().len() ==> final(self).rows().len() >= old(self).rows().len()
                && final(self).rows().take(old(self).rows().len() as int) == old(self).rows(),
    ;

    /// Removes record `i`; the last record takes its place.
    fn swap_remove(&mut self, i: usize)
        requires
            old(self).valid(),
            i < old(self).rows().len() || old(self).lenient(),
        ensures
            final(self).valid(),
            final(self).shape() == old(self).shape(),
            final(self).lenient() == old(self).lenient(),
            i < old(self).rows().len() ==> final(self).rows() == swap_removed(
                old(self).rows(),
                i as int,
            ),
            i >= old(self).rows().len() ==> final(self).rows() == old(self).rows(),
    ;

    /// Appends record `i` to `buf`.
    fn pack(&self, i: usize, buf: &mut Vec<Scalar>)
        requires
            self.valid(),
            i < self.rows().len() || self.lenient(),
        ensures
            i < self.rows().len() ==> final(buf)@ == old(buf)@ + self.rows()[i as int],
            i >= self.rows().len() ==> final(buf)@ == old(buf)@ + Self::blank(),
    ;

    /// Appends the record at the head of `buf` and returns its length.
    fn unpack(&mut self, buf: &[Scalar]) -> (r: usize)
        requires
            old(self).valid(),
            Self::readable(old(self).shape(), buf@),
        ensures
            final(self).valid(),
            final(self).shape() == old(self).shape(),
            final(self).lenient() == old(self).lenient(),
            r == Self::taken(old(self).shape(), buf@),
            r <= buf@.len(),
            final(self).rows() == old(self).rows().push(Self::read(old(self).shape(), buf@)),
    ;

    /// The length of the record at the head of `buf`, if one can be read there.
    fn measure(&self, buf: &[Scalar]) -> (r: Option<usize>)
        requires
            self.valid(),
        ensures
            r is Some <==> Self::readable(self.shape(), buf@),
            r matches Some(n) ==> n == Self::taken(self.shape(), buf@) && n <= buf@.len(),
    ;

    /// Puts record `perm[i]` in place `i` for the first `n` records.
    fn apply_permutation(&mut self, perm: &[usize], n: usize)
        requires
            old(self).valid(),
            perm@.len() == n <= old(self).rows().len(),
            forall|i: int| 0 <= i < n ==> #[trigger] perm@[i] < old(self).rows().len(),
        ensures
            final(self).valid(),
            final(self).shape() == old(self).shape(),
            final(self).lenient() == old(self).lenient(),
            final(self).rows() == permuted(old(self).rows(), perm@),
    ;

    /// Appends what owner `i` sends to its ghosts.
    fn pack_forward(&self, i: usize, buf: &mut Vec<Scalar>)
        requires
            self.valid(),
            i < self.rows().len() || self.lenient(),
        ensures
            i < self.rows().len() ==> final(buf)@ == old(buf)@ + Self::forward_part(
                self.shape(),
                self.rows()[i as int],
            ),
            i >= self.rows().len() ==> final(buf)@ == old(buf)@,
            i < self.rows().len() ==> final(buf)@.len() == old(buf)@.len() + Self::forward_size(
                self.shape(),
            ),
    ;

    /// Overwrites ghost `i` with what its owner sent.
    fn unpack_forward(&mut self, i: usize, buf: &[Scalar]) -> (r: usize)
        requires
            old(self).valid(),
            i < old(self).rows().len() || old(self).lenient(),
            buf@.len() >= Self::forward_size(old(self).shape()),
        ensures
            final(self).valid(),
            final(self).shape() == old(self).shape(),
            final(self).lenient() == old(self).lenient(),
            r == Self::forward_size(old(self).shape()),
            i < old(self).rows().len() ==> final(self).rows() == old(self).rows().update(
                i as int,
                Self::with_forward(old(self).shape(), old(self).rows()[i as int], buf@.take(r as int)),
            ),
            i >= old(self).rows().len() ==> final(self).rows() == old(self).rows(),
    ;

    /// Appends what ghost `i` sends back to its owner.
    fn pack_reverse(&self, i: usize, buf: &mut Vec<Scalar>)
        requires
            self.valid(),
            i < self.rows().len() || self.lenient(),
        ensures
            i < self.rows().len() ==> final(buf)@ == old(buf)@ + Self::reverse_part(
                self.shape(),
                self.rows()[i as int],
            ),
            i >= self.rows().len() ==> final(buf)@ == old(buf)@,
            i < self.rows().len() ==> final(buf)@.len() == old(buf)@.len() + Self::reverse_size(
                self.shape(),
            ),
    ;

    /// Adds to owner `i` what one of its ghosts sent.
    fn unpack_reverse<F: Fn(Op, Scalar, Scalar, Scalar) -> Scalar>(&mut self, i: usize, buf: &[Scalar], ar: &F) -> (r:
        usize)
        requires
            is_arithmetic(*ar),
            old(self).valid(),
            i < old(self).rows().len() || old(self).lenient(),
            buf@.len() >= Self::reverse_size(old(self).shape()),
        ensures
            final(self).valid(),
            final(self).shape() == old(self).shape(),
            final(self).lenient() == old(self).lenient(),
            r == Self::reverse_size(old(self).shape()),
            i < old(self).rows().len() ==> final(self).rows() == old(self).rows().update(
                i as int,
                Self::with_reverse(
                    old(self).shape(),
                    old(self).rows()[i as int],
                    buf@.take(r as int),
                    summing(*ar),
                ),
            ),
            i >= old(self).rows().len() ==> final(self).rows() == old(self).rows(),
    ;

    /// Clears the accumulators of all `n` records.
    fn zero(&mut self, n: usize)
        requires
            old(self).valid(),
        ensures
            final(self).shape() == old(self).shape(),
            final(self).lenient() == old(self).lenient(),
            n == old(self).rows().len() ==> final(self).valid() && final(self).rows()
                == old(self).rows().map_values(
                |row: Seq<Scalar>| Self::zeroed(old(self).shape(), row),
            ),
    ;

    /// The number of values that `pack_forward` appends.
    fn forward_comm_size(&self) -> (r: usize)
        requires
            self.valid(),
        ensures
            r == Self::forward_size(self.shape()),
    ;

    /// The number of values that `pack_reverse` appends.
    fn reverse_comm_size(&self) -> (r: usize)
        requires
            self.valid(),
        ensures
            r == Self::reverse_size(self.shape()),
    ;
}

/// `s` without element `i`, whose place the last element takes.
pub open spec fn swap_removed<T>(s: Seq<T>, i: int) -> Seq<T> {
    s.update(i, s.last()).drop_last()
}

/// `s` with its first `perm.len()` elements gathered through `perm`.
pub open spec fn permuted<T>(s: Seq<T>, perm: Seq<usize>) -> Seq<T> {
    Seq::new(
        s.len(),
        |i: int|
            if i < perm.len() {
                s[perm[i] as int]
            } else {
                s[i]
            },
    )
}

/// What a store packs for atom `i`.
pub open spec fn packed_row<D: AtomData>(d: D, i: int) -> Seq<Scalar> {
    if i < d.rows().len() {
        d.rows()[i]
    } else {
        D::blank()
    }
}

/// A registered store and the key it was registered under.
pub struct Entry<D> {
    pub key: u64,
    pub data: D,
}

/// The registered stores, in the order of registration.
pub struct AtomDataRegistry<D> {
    pub stores: Vec<Entry<D>>,
}

/// What the first `k` stores pack for atom `i`.
pub open spec fn packed_rows<D: AtomData>(stores: Seq<Entry<D>>, i: int, k: int) -> Seq<Scalar>
    decreases k,
{
    if k <= 0 {
        Seq::empty()
    } else {
        packed_rows(stores, i, k - 1) + packed_row(stores[k - 1].data, i)
    }
}

/// Where in `buf` the record of store `k` begins.
pub open spec fn taken_upto<D: AtomData>(stores: Seq<Entry<D>>, buf: Seq<Scalar>, k: int) -> nat
    decreases k,
{
    if k <= 0 {
        0
    } else {
        let t: nat = taken_upto(stores, buf, k - 1);
        t + D::taken(stores[k - 1].data.shape(), buf.skip(t as int))
    }
}

/// One record of each store can be read from the head of `buf`.
pub open spec fn readable_all<D: AtomData>(stores: Seq<Entry<D>>, buf: Seq<Scalar>) -> bool {
    forall|k: int|
        0 <= k < stores.len() ==> D::readable(
            (#[trigger] stores[k]).data.shape(),
            buf.skip(taken_upto(stores, buf, k) as int),
        )
}

/// What the first `k` stores send forward for atom `i`.
pub open spec fn forward_words<D: AtomData>(stores: Seq<Entry<D>>, i: int, k: int) -> Seq<Scalar>
    decreases k,
{
    if k <= 0 {
        Seq::empty()
    } else {
        forward_words(stores, i, k - 1) + forward_row(stores[k - 1].data, i)
    }
}

pub open spec fn forward_row<D: AtomData>(d: D, i: int) -> Seq<Scalar> {
    if i < d.rows().len() {
        D::forward_part(d.shape(), d.rows()[i])
    } else {
        Seq::empty()
    }
}

/// What the first `k` stores send back for atom `i`.
pub open spec fn reverse_words<D: AtomData>(stores: Seq<Entry<D>>, i: int, k: int) -> Seq<Scalar>
    decreases k,
{
    if k <= 0 {
        Seq::empty()
    } else {
        reverse_words(stores, i, k - 1) + reverse_row(stores[k - 1].data, i)
    }
}

pub open spec fn reverse_row<D: AtomData>(d: D, i: int) -> Seq<Scalar> {
    if i < d.rows().len() {
        D::reverse_part(d.shape(), d.rows()[i])
    } else {
        Seq::empty()
    }
}

/// The forward sizes of the first `k` stores.
pub open spec fn forward_upto<D: AtomData>(stores: Seq<Entry<D>>, k: int) -> nat
    decreases k,
{
    if k <= 0 {
        0
    } else {
        forward_upto(stores, k - 1) + D::forward_size(stores[k - 1].data.shape())
    }
}

/// The reverse sizes of the first `k` stores.
pub open spec fn reverse_upto<D: AtomData>(stores: Seq<Entry<D>>, k: int) -> nat
    decreases k,
{
    if k <= 0 {
        0
    } else {
        reverse_upto(stores, k - 1) + D::reverse_size(stores[k - 1].data.shape())
    }
}

/// The records of atoms `0..n`, one after the other.
pub open spec fn packed_column<D: AtomData>(d: D, n: int) -> Seq<Scalar>
    decreases n,
{
    if n <= 0 {
        Seq::empty()
    } else {
        packed_column(d, n - 1) + packed_row(d, n - 1)
    }
}

/// `buf` is a chain of records with nothing left over.
pub open spec fn readable_chain<D: AtomData>(shape: Seq<Field>, buf: Seq<Scalar>) -> bool
    decreases buf.len(),
{
    buf.len() == 0 || {
        &&& D::readable(shape, buf)
        &&& 0 < D::taken(shape, buf) <= buf.len()
        &&& readable_chain::<D>(shape, buf.skip(D::taken(shape, buf) as int))
    }
}

/// The rows of a chain of records.
pub open spec fn read_chain<D: AtomData>(shape: Seq<Field>, buf: Seq<Scalar>) -> Seq<Seq<Scalar>>
    decreases buf.len(),
{
    if buf.len() == 0 || !(0 < D::taken(shape, buf) <= buf.len()) {
        Seq::empty()
    } else {
        seq![D::read(shape, buf)] + read_chain::<D>(shape, buf.skip(D::taken(shape, buf) as int))
    }
}

/// Two stores with the same columns and the same treatment of missing records.
pub open spec fn alike<D: AtomData>(a: D, b: D) -> bool {
    a.shape() == b.shape() && a.lenient() == b.lenient()
}

impl<D: AtomData> AtomDataRegistry<D> {
    /// No key occurs twice and every store is valid.
    pub open spec fn wf(&self) -> bool {
        &&& forall|j: int, k: int|
            0 <= j < k < self.stores@.len() ==> self.stores@[j].key != self.stores@[k].key
        &&& forall|k: int| 0 <= k < self.stores@.len() ==> (#[trigger] self.stores@[k]).data.valid()
    }

    /// The same stores under the same keys, each with its columns.
    pub open spec fn same_stores(&self, other: &Self) -> bool {
        &&& self.stores@.len() == other.stores@.len()
        &&& forall|k: int|
            0 <= k < self.stores@.len() ==> self.stores@[k].key == other.stores@[k].key && alike(
                (#[trigger] self.stores@[k]).data,
                other.stores@[k].data,
            )
    }

    /// Every store holds one record for each of `n` atoms.
    pub open spec fn parallel_to(&self, n: int) -> bool {
        forall|k: int|
            0 <= k < self.stores@.len() ==> (#[trigger] self.stores@[k]).data.rows().len() == n
    }

    /// Every store accepts index `i`.
    pub open spec fn accepts(&self, i: int) -> bool {
        forall|k: int|
            0 <= k < self.stores@.len() ==> i < (#[trigger] self.stores@[k]).data.rows().len()
                || self.stores@[k].data.lenient()
    }

    /// A store is registered under `key`.
    pub open spec fn has(&self, key: u64) -> bool {
        exists|k: int| 0 <= k < self.stores@.len() && (#[trigger] self.stores@[k]).key == key
    }

    pub fn new() -> (r: Self)
        ensures
            r.stores@.len() == 0,
            r.wf(),
    {
        AtomDataRegistry { stores: Vec::new() }
    }

    /// Registers a store. A key is used once.
    pub fn register(&mut self, key: u64, data: D)
        requires
            old(self).wf(),
            !old(self).has(key),
            data.valid(),
        ensures
            final(self).wf(),
            final(self).stores@ == old(self).stores@.push((Entry { key, data })),
    {
        self.stores.push(Entry { key, data });
    }

    /// The place of the store registered under `key`.
    fn find(&self, key: u64) -> (r: Option<usize>)
        ensures
            match r {
                Some(k) => k < self.stores@.len() && self.stores@[k as int].key == key,
                None => !self.has(key),
            },
    {
        let mut k: usize = 0;
        while k < self.stores.len()
            invariant
                k <= self.stores@.len(),
                forall|j: int| 0 <= j < k ==> (#[trigger] self.stores@[j]).key != key,
            decreases self.stores.len() - k,
        {
            if self.stores[k].key == key {
                return Some(k);
            }
            k = k + 1;
        }
        None
    }

    /// The store registered under `key`.
    pub fn get(&self, key: u64) -> (r: Option<&D>)
        requires
            self.wf(),
        ensures
            r is Some == self.has(key),
            r is Some ==> forall|k: int|
                0 <= k < self.stores@.len() && (#[trigger] self.stores@[k]).key == key ==> *r->0
                    == self.stores@[k].data,
    {
        match self.find(key) {
            Some(k) => Some(&self.stores[k].data),
            None => None,
        }
    }

    /// `k` is the place of the store registered under `key`.
    pub open spec fn stands_at(&self, key: u64, k: int) -> bool {
        0 <= k < self.stores@.len() && self.stores@[k].key == key
    }

    /// The store registered under `key`, for changing it.
    pub fn get_mut(&mut self, key: u64) -> (r: Option<&mut D>)
        ensures
            match r {
                Some(d) => exists|k: int|
                    {
                        &&& #[trigger] old(self).stands_at(key, k)
                        &&& *d == old(self).stores@[k].data
                        &&& final(self).stores@ == old(self).stores@.update(
                            k,
                            (Entry { key, data: *final(d) }),
                        )
                    },
                None => !old(self).has(key) && *final(self) == *old(self),
            },
    {
        match self.find(key) {
            Some(k) => {
                assert(self.stands_at(key, k as int));
                Some(&mut self.stores[k].data)
            },
            None => None,
        }
    }

    /// The store registered under `key`, which must be there.
    pub fn expect(&self, key: u64) -> (r: &D)
        requires
            self.wf(),
            self.has(key),
        ensures
            forall|k: int| #[trigger] self.stands_at(key, k) ==> *r == self.stores@[k].data,
    {
        match self.find(key) {
            Some(k) => &self.stores[k].data,
            None => vstd::pervasive::unreached(),
        }
    }

    /// The store registered under `key`, which must be there, for changing it.
    pub fn expect_mut(&mut self, key: u64) -> (r: &mut D)
        requires
            old(self).has(key),
        ensures
            exists|k: int|
                {
                    &&& #[trigger] old(self).stands_at(key, k)
                    &&& *r == old(self).stores@[k].data
                    &&& final(self).stores@ == old(self).stores@.update(
                        k,
                        (Entry { key, data: *final(r) }),
                    )
                },
    {
        match self.find(key) {
            Some(k) => {
                assert(self.stands_at(key, k as int));
                &mut self.stores[k].data
            },
            None => vstd::pervasive::unreached(),
        }
    }

    /// Keeps the first `n` records of every store.
    pub fn truncate_all(&mut self, n: usize)
        requires
            old(self).wf(),
        ensures
            final(self).wf(),
            final(self).same_stores(old(self)),
            forall|k: int|
                0 <= k < old(self).stores@.len() && n <= old(self).stores@[k].data.rows().len()
                    ==> (#[trigger] final(self).stores@[k]).data.rows()
                    == old(self).stores@[k].data.rows().take(n as int),
            forall|m: int| n <= m && #[trigger] old(self).parallel_to(m) ==> final(self).parallel_to(
                n as int,
            ),
    {
        let ghost before: Seq<Entry<D>> = self.stores@;
        let mut k: usize = 0;
        while k < self.stores.len()
            invariant
                old(self).wf(),
                before == old(self).stores@,
                k <= self.stores@.len() == before.len(),
                forall|j: int| k <= j < before.len() ==> self.stores@[j] == before[j],
                forall|j: int|
                    0 <= j < before.len() ==> (#[trigger] self.stores@[j]).key == before[j].key && alike(
                        self.stores@[j].data,
                        before[j].data,
                    ) && self.stores@[j].data.valid(),
                forall|j: int|
                    0 <= j < k && n <= before[j].data.rows().len() ==> (
                    #[trigger] self.stores@[j]).data.rows() == before[j].data.rows().take(n as int),
            decreases self.stores.len() - k,
        {
            self.stores[k].data.truncate(n);
            k = k + 1;
        }
    }

    /// Removes record `i` from every store.
    pub fn swap_remove_all(&mut self, i: usize)
        requires
            old(self).wf(),
            old(self).accepts(i as int),
        ensures
            final(self).wf(),
            final(self).same_stores(old(self)),
            forall|k: int|
                0 <= k < old(self).stores@.len() ==> (#[trigger] final(self).stores@[k]).data.rows()
                    == if i < old(self).stores@[k].data.rows().len() {
                    swap_removed(old(self).stores@[k].data.rows(), i as int)
                } else {
                    old(self).stores@[k].data.rows()
                },
            forall|m: int| i < m && #[trigger] old(self).parallel_to(m) ==> final(self).parallel_to(
                m - 1,
            ),
    {
        let ghost before: Seq<Entry<D>> = self.stores@;
        let mut k: usize = 0;
        while k < self.stores.len()
            invariant
                old(self).wf(),
                old(self).accepts(i as int),
                before == old(self).stores@,
                k <= self.stores@.len() == before.len(),
                forall|j: int| k <= j < before.len() ==> self.stores@[j] == before[j],
                forall|j: int|
                    0 <= j < before.len() ==> (#[trigger] self.stores@[j]).key == before[j].key && alike(
                        self.stores@[j].data,
                        before[j].data,
                    ) && self.stores@[j].data.valid(),
                forall|j: int|
                    0 <= j < k ==> (#[trigger] self.stores@[j]).data.rows() == if i
                        < before[j].data.rows().len() {
                        swap_removed(before[j].data.rows(), i as int)
                    } else {
                        before[j].data.rows()
                    },
            decreases self.stores.len() - k,
        {
            assert(self.stores@[k as int] == before[k as int]);
            self.stores[k].data.swap_remove(i);
            k = k + 1;
        }
    }

    /// Appends the records of atom `i`, store by store.
    pub fn pack_all(&self, i: usize, buf: &mut Vec<Scalar>)
        requires
            self.wf(),
            self.accepts(i as int),
        ensures
            final(buf)@ == old(buf)@ + packed_rows(self.stores@, i as int, self.stores@.len() as int),
    {
        let ghost before: Seq<Scalar> = buf@;
        let mut k: usize = 0;
        assert(before + packed_rows(self.stores@, i as int, 0) =~= before);
        while k < self.stores.len()
            invariant
                self.wf(),
                self.accepts(i as int),
                k <= self.stores@.len(),
                buf@ == before + packed_rows(self.stores@, i as int, k as int),
            decreases self.stores.len() - k,
        {
            self.stores[k].data.pack(i, buf);
            k = k + 1;
            assert(buf@ =~= before + packed_rows(self.stores@, i as int, k as int));
        }
    }

    /// Appends to every store its record in `buf` and returns their length.
    pub fn unpack_all(&mut self, buf: &[Scalar]) -> (r: usize)
        requires
            old(self).wf(),
            readable_all(old(self).stores@, buf@),
        ensures
            final(self).wf(),
            final(self).same_stores(old(self)),
            r == taken_upto(old(self).stores@, buf@, old(self).stores@.len() as int),
            r <= buf@.len(),
            forall|k: int|
                0 <= k < old(self).stores@.len() ==> (#[trigger] final(self).stores@[k]).data.rows()
                    == old(self).stores@[k].data.rows().push(
                    D::read(
                        old(self).stores@[k].data.shape(),
                        buf@.skip(taken_upto(old(self).stores@, buf@, k) as int),
                    ),
                ),
            forall|m: int| #[trigger] old(self).parallel_to(m) ==> final(self).parallel_to(m + 1),
    {
        let ghost before: Seq<Entry<D>> = self.stores@;
        let mut pos: usize = 0;
        let mut k: usize = 0;
        while k < self.stores.len()
            invariant
                old(self).wf(),
                before == old(self).stores@,
                readable_all(before, buf@),
                k <= self.stores@.len() == before.len(),
                pos == taken_upto(before, buf@, k as int),
                pos <= buf@.len(),
                forall|j: int| k <= j < before.len() ==> self.stores@[j] == before[j],
                forall|j: int|
                    0 <= j < before.len() ==> (#[trigger] self.stores@[j]).key == before[j].key && alike(
                        self.stores@[j].data,
                        before[j].data,
                    ) && self.stores@[j].data.valid(),
                forall|j: int|
                    0 <= j < k ==> (#[trigger] self.stores@[j]).data.rows()
                        == before[j].data.rows().push(
                        D::read(
                            before[j].data.shape(),
                            buf@.skip(taken_upto(before, buf@, j) as int),
                        ),
                    ),
            decreases self.stores.len() - k,
        {
            let tail: &[Scalar] = vstd::slice::slice_subrange(buf, pos, buf.len());
            assert(tail@ =~= buf@.skip(pos as int));
            assert(self.stores@[k as int] == before[k as int]);
            let used: usize = self.stores[k].data.unpack(tail);
            pos = pos + used;
            k = k + 1;
        }
        pos
    }

    /// Reorders the first `n` records of every store.
    pub fn apply_permutation_all(&mut self, perm: &[usize], n: usize)
        requires
            old(self).wf(),
            perm@.len() == n,
            forall|k: int|
                0 <= k < old(self).stores@.len() ==> n <= (
                #[trigger] old(self).stores@[k]).data.rows().len(),
            forall|k: int, i: int|
                0 <= k < old(self).stores@.len() && 0 <= i < n ==> (#[trigger] perm@[i]) < (
                #[trigger] old(self).stores@[k]).data.rows().len(),
        ensures
            final(self).wf(),
            final(self).same_stores(old(self)),
            forall|k: int|
                0 <= k < old(self).stores@.len() ==> (#[trigger] final(self).stores@[k]).data.rows()
                    == permuted(old(self).stores@[k].data.rows(), perm@),
            forall|m: int| #[trigger] old(self).parallel_to(m) ==> final(self).parallel_to(m),
    {
        let ghost before: Seq<Entry<D>> = self.stores@;
        let mut k: usize = 0;
        while k < self.stores.len()
            invariant
                old(self).wf(),
                before == old(self).stores@,
                perm@.len() == n,
                forall|j: int| 0 <= j < before.len() ==> n <= (#[trigger] before[j]).data.rows().len(),
                forall|j: int, i: int|
                    0 <= j < before.len() && 0 <= i < n ==> (#[trigger] perm@[i]) < (
                    #[trigger] before[j]).data.rows().len(),
                k <= self.stores@.len() == before.len(),
                forall|j: int| k <= j < before.len() ==> self.stores@[j] == before[j],
                forall|j: int|
                    0 <= j < before.len() ==> (#[trigger] self.stores@[j]).key == before[j].key && alike(
                        self.stores@[j].data,
                        before[j].data,
                    ) && self.stores@[j].data.valid(),
                forall|j: int|
                    0 <= j < k ==> (#[trigger] self.stores@[j]).data.rows() == permuted(
                        before[j].data.rows(),
                        perm@,
                    ),
            decreases self.stores.len() - k,
        {
            assert(self.stores@[k as int] == before[k as int]);
            self.stores[k].data.apply_permutation(perm, n);
            k = k + 1;
        }
    }

    /// Clears the accumulators of every store.
    pub fn zero_all(&mut self, n: usize)
        requires
            old(self).wf(),
            old(self).parallel_to(n as int),
        ensures
            final(self).wf(),
            final(self).same_stores(old(self)),
            forall|k: int|
                0 <= k < old(self).stores@.len() ==> (#[trigger] final(self).stores@[k]).data.rows()
                    == old(self).stores@[k].data.rows().map_values(
                    |row: Seq<Scalar>| D::zeroed(old(self).stores@[k].data.shape(), row),
                ),
            final(self).parallel_to(n as int),
    {
        let ghost before: Seq<Entry<D>> = self.stores@;
        let mut k: usize = 0;
        while k < self.stores.len()
            invariant
                old(self).wf(),
                old(self).parallel_to(n as int),
                before == old(self).stores@,
                k <= self.stores@.len() == before.len(),
                forall|j: int| k <= j < before.len() ==> self.stores@[j] == before[j],
                forall|j: int|
                    0 <= j < before.len() ==> (#[trigger] self.stores@[j]).key == before[j].key && alike(
                        self.stores@[j].data,
                        before[j].data,
                    ) && self.stores@[j].data.valid(),
                forall|j: int|
                    0 <= j < k ==> (#[trigger] self.stores@[j]).data.rows()
                        == before[j].data.rows().map_values(
                        |row: Seq<Scalar>| D::zeroed(before[j].data.shape(), row),
                    ),
            decreases self.stores.len() - k,
        {
            assert(self.stores@[k as int] == before[k as int]);
            self.stores[k].data.zero(n);
            k = k + 1;
        }
    }

    /// Appends what owner `i` sends to its ghosts, store by store.
    pub fn pack_forward_all(&self, i: usize, buf: &mut Vec<Scalar>)
        requires
            self.wf(),
            self.accepts(i as int),
        ensures
            final(buf)@ == old(buf)@ + forward_words(self.stores@, i as int, self.stores@.len() as int),
            forall|n: int| i < n && #[trigger] self.parallel_to(n) ==> final(buf)@.len()
                == old(buf)@.len() + forward_upto(self.stores@, self.stores@.len() as int),
    {
        let ghost before: Seq<Scalar> = buf@;
        let mut k: usize = 0;
        assert(before + forward_words(self.stores@, i as int, 0) =~= before);
        while k < self.stores.len()
            invariant
                self.wf(),
                self.accepts(i as int),
                k <= self.stores@.len(),
                buf@ == before + forward_words(self.stores@, i as int, k as int),
                forall|n: int| i < n && #[trigger] self.parallel_to(n) ==> buf@.len()
                    == before.len() + forward_upto(self.stores@, k as int),
            decreases self.stores.len() - k,
        {
            self.stores[k].data.pack_forward(i, buf);
            k = k + 1;
            assert(buf@ =~= before + forward_words(self.stores@, i as int, k as int));
        }
    }

    /// Overwrites ghost `i` in every store with what its owner sent.
    pub fn unpack_forward_all(&mut self, i: usize, buf: &[Scalar]) -> (r: usize)
        requires
            old(self).wf(),
            old(self).accepts(i as int),
            buf@.len() >= forward_upto(old(self).stores@, old(self).stores@.len() as int),
        ensures
            final(self).wf(),
            final(self).same_stores(old(self)),
            r == forward_upto(old(self).stores@, old(self).stores@.len() as int),
            forall|k: int|
                0 <= k < old(self).stores@.len() ==> (#[trigger] final(self).stores@[k]).data.rows()
                    == forward_received(old(self).stores@, i as int, buf@, k),
            forall|m: int| #[trigger] old(self).parallel_to(m) ==> final(self).parallel_to(m),
    {
        let ghost before: Seq<Entry<D>> = self.stores@;
        let mut pos: usize = 0;
        let mut k: usize = 0;
        while k < self.stores.len()
            invariant
                old(self).wf(),
                old(self).accepts(i as int),
                before == old(self).stores@,
                buf@.len() >= forward_upto(before, before.len() as int),
                k <= self.stores@.len() == before.len(),
                pos == forward_upto(before, k as int),
                pos <= buf@.len(),
                forall|j: int| k <= j < before.len() ==> self.stores@[j] == before[j],
                forall|j: int|
                    0 <= j < before.len() ==> (#[trigger] self.stores@[j]).key == before[j].key && alike(
                        self.stores@[j].data,
                        before[j].data,
                    ) && self.stores@[j].data.valid(),
                forall|j: int|
                    0 <= j < k ==> (#[trigger] self.stores@[j]).data.rows() == forward_received(
                        before,
                        i as int,
                        buf@,
                        j,
                    ),
            decreases self.stores.len() - k,
        {
            proof {
                lemma_forward_grows(before, k + 1, before.len() as int);
            }
            let tail: &[Scalar] = vstd::slice::slice_subrange(buf, pos, buf.len());
            assert(self.stores@[k as int] == before[k as int]);
            let used: usize = self.stores[k].data.unpack_forward(i, tail);
            proof {
                assert(tail@.take(used as int) =~= buf@.subrange(
                    forward_upto(before, k as int) as int,
                    forward_upto(before, k + 1) as int,
                ));
            }
            pos = pos + used;
            k = k + 1;
        }
        pos
    }

    /// Appends what ghost `i` sends back to its owner, store by store.
    pub fn pack_reverse_all(&self, i: usize, buf: &mut Vec<Scalar>)
        requires
            self.wf(),
            self.accepts(i as int),
        ensures
            final(buf)@ == old(buf)@ + reverse_words(self.stores@, i as int, self.stores@.len() as int),
            forall|n: int| i < n && #[trigger] self.parallel_to(n) ==> final(buf)@.len()
                == old(buf)@.len() + reverse_upto(self.stores@, self.stores@.len() as int),
    {
        let ghost before: Seq<Scalar> = buf@;
        let mut k: usize = 0;
        assert(before + reverse_words(self.stores@, i as int, 0) =~= before);
        while k < self.stores.len()
            invariant
                self.wf(),
                self.accepts(i as int),
                k <= self.stores@.len(),
                buf@ == before + reverse_words(self.stores@, i as int, k as int),
                forall|n: int| i < n && #[trigger] self.parallel_to(n) ==> buf@.len()
                    == before.len() + reverse_upto(self.stores@, k as int),
            decreases self.stores.len() - k,
        {
            self.stores[k].data.pack_reverse(i, buf);
            k = k + 1;
            assert(buf@ =~= before + reverse_words(self.stores@, i as int, k as int));
        }
    }

    /// Adds to owner `i` in every store what one of its ghosts sent.
    pub fn unpack_reverse_all<F: Fn(Op, Scalar, Scalar, Scalar) -> Scalar>(
        &mut self,
        i: usize,
        buf: &[Scalar],
        ar: &F,
    ) -> (r: usize)
        requires
            is_arithmetic(*ar),
            old(self).wf(),
            old(self).accepts(i as int),
            buf@.len() >= reverse_upto(old(self).stores@, old(self).stores@.len() as int),
        ensures
            final(self).wf(),
            final(self).same_stores(old(self)),
            r == reverse_upto(old(self).stores@, old(self).stores@.len() as int),
            forall|k: int|
                0 <= k < old(self).stores@.len() ==> (#[trigger] final(self).stores@[k]).data.rows()
                    == reverse_received(old(self).stores@, i as int, buf@, summing(*ar), k),
            forall|m: int| #[trigger] old(self).parallel_to(m) ==> final(self).parallel_to(m),
    {
        let ghost before: Seq<Entry<D>> = self.stores@;
        let mut pos: usize = 0;
        let mut k: usize = 0;
        while k < self.stores.len()
            invariant
                is_arithmetic(*ar),
                old(self).wf(),
                old(self).accepts(i as int),
                before == old(self).stores@,
                buf@.len() >= reverse_upto(before, before.len() as int),
                k <= self.stores@.len() == before.len(),
                pos == reverse_upto(before, k as int),
                pos <= buf@.len(),
                forall|j: int| k <= j < before.len() ==> self.stores@[j] == before[j],
                forall|j: int|
                    0 <= j < before.len() ==> (#[trigger] self.stores@[j]).key == before[j].key && alike(
                        self.stores@[j].data,
                        before[j].data,
                    ) && self.stores@[j].data.valid(),
                forall|j: int|
                    0 <= j < k ==> (#[trigger] self.stores@[j]).data.rows() == reverse_received(
                        before,
                        i as int,
                        buf@,
                        summing(*ar),
                        j,
                    ),
            decreases self.stores.len() - k,
        {
            proof {
                lemma_reverse_grows(before, k + 1, before.len() as int);
            }
            let tail: &[Scalar] = vstd::slice::slice_subrange(buf, pos, buf.len());
            assert(self.stores@[k as int] == before[k as int]);
            let used: usize = self.stores[k].data.unpack_reverse(i, tail, ar);
            proof {
                assert(tail@.take(used as int) =~= buf@.subrange(
                    reverse_upto(before, k as int) as int,
                    reverse_upto(before, k + 1) as int,
                ));
            }
            pos = pos + used;
            k = k + 1;
        }
        pos
    }

    /// The number of values that all stores send forward per atom.
    pub fn forward_comm_size(&self) -> (r: usize)
        requires
            self.wf(),
            forward_upto(self.stores@, self.stores@.len() as int) <= usize::MAX,
        ensures
            r == forward_upto(self.stores@, self.stores@.len() as int),
    {
        let mut sum: usize = 0;
        let mut k: usize = 0;
        while k < self.stores.len()
            invariant
                self.wf(),
                forward_upto(self.stores@, self.stores@.len() as int) <= usize::MAX,
                k <= self.stores@.len(),
                sum == forward_upto(self.stores@, k as int),
            decreases self.stores.len() - k,
        {
            proof {
                lemma_forward_grows(self.stores@, k + 1, self.stores@.len() as int);
            }
            sum = sum + self.stores[k].data.forward_comm_size();
            k = k + 1;
        }
        sum
    }

    /// The number of values that all stores send back per atom.
    pub fn reverse_comm_size(&self) -> (r: usize)
        requires
            self.wf(),
            reverse_upto(self.stores@, self.stores@.len() as int) <= usize::MAX,
        ensures
            r == reverse_upto(self.stores@, self.stores@.len() as int),
    {
        let mut sum: usize = 0;
        let mut k: usize = 0;
        while k < self.stores.len()
            invariant
                self.wf(),
                reverse_upto(self.stores@, self.stores@.len() as int) <= usize::MAX,
                k <= self.stores@.len(),
                sum == reverse_upto(self.stores@, k as int),
            decreases self.stores.len() - k,
        {
            proof {
                lemma_reverse_grows(self.stores@, k + 1, self.stores@.len() as int);
            }
            sum = sum + self.stores[k].data.reverse_comm_size();
            k = k + 1;
        }
        sum
    }

    /// The records of the local atoms, one buffer per store.
    pub fn pack_all_for_restart(&self, nlocal: usize) -> (r: Vec<Vec<Scalar>>)
        requires
            self.wf(),
            forall|i: int| 0 <= i < nlocal ==> #[trigger] self.accepts(i),
        ensures
            r@.len() == self.stores@.len(),
            forall|k: int|
                0 <= k < r@.len() ==> (#[trigger] r@[k])@ == packed_column(
                    self.stores@[k].data,
                    nlocal as int,
                ),
    {
        let mut out: Vec<Vec<Scalar>> = Vec::new();
        let mut k: usize = 0;
        while k < self.stores.len()
            invariant
                self.wf(),
                forall|i: int| 0 <= i < nlocal ==> #[trigger] self.accepts(i),
                k <= self.stores@.len(),
                out@.len() == k,
                forall|j: int|
                    0 <= j < k ==> (#[trigger] out@[j])@ == packed_column(
                        self.stores@[j].data,
                        nlocal as int,
                    ),
            decreases self.stores.len() - k,
        {
            let mut buf: Vec<Scalar> = Vec::new();
            let mut i: usize = 0;
            while i < nlocal
                invariant
                    self.wf(),
                    forall|m: int| 0 <= m < nlocal ==> #[trigger] self.accepts(m),
                    k < self.stores@.len(),
                    i <= nlocal,
                    buf@ == packed_column(self.stores@[k as int].data, i as int),
                decreases nlocal - i,
            {
                assert(self.accepts(i as int));
                assert(self.stores@[k as int].data.valid());
                self.stores[k].data.pack(i, &mut buf);
                i = i + 1;
            }
            out.push(buf);
            k = k + 1;
        }
        out
    }

    /// Appends to each store the records of its buffer; stores without a
    /// buffer and buffers without a store are left alone.
    pub fn unpack_all_from_restart(&mut self, buffers: &Vec<Vec<Scalar>>)
        requires
            old(self).wf(),
            forall|k: int|
                0 <= k < old(self).stores@.len() && k < buffers@.len() ==> readable_chain::<D>(
                    (#[trigger] old(self).stores@[k]).data.shape(),
                    buffers@[k]@,
                ),
        ensures
            final(self).wf(),
            final(self).same_stores(old(self)),
            forall|k: int|
                0 <= k < old(self).stores@.len() ==> (#[trigger] final(self).stores@[k]).data.rows()
                    == if k < buffers@.len() {
                    old(self).stores@[k].data.rows() + read_chain::<D>(
                        old(self).stores@[k].data.shape(),
                        buffers@[k]@,
                    )
                } else {
                    old(self).stores@[k].data.rows()
                },
    {
        let ghost before: Seq<Entry<D>> = self.stores@;
        let mut k: usize = 0;
        while k < self.stores.len() && k < buffers.len()
            invariant
                old(self).wf(),
                before == old(self).stores@,
                forall|j: int|
                    0 <= j < before.len() && j < buffers@.len() ==> readable_chain::<D>(
                        (#[trigger] before[j]).data.shape(),
                        buffers@[j]@,
                    ),
                k <= self.stores@.len() == before.len(),
                k <= buffers@.len(),
                forall|j: int| k <= j < before.len() ==> self.stores@[j] == before[j],
                forall|j: int|
                    0 <= j < before.len() ==> (#[trigger] self.stores@[j]).key == before[j].key && alike(
                        self.stores@[j].data,
                        before[j].data,
                    ) && self.stores@[j].data.valid(),
                forall|j: int|
                    0 <= j < k ==> (#[trigger] self.stores@[j]).data.rows() == before[j].data.rows()
                        + read_chain::<D>(before[j].data.shape(), buffers@[j]@),
            decreases self.stores.len() - k,
        {
            assert(self.stores@[k as int] == before[k as int]);
            unpack_chain(&mut self.stores[k].data, &buffers[k]);
            k = k + 1;
        }
    }

    /// The length of one record of each store at the head of `buf`, if they can be
    /// read there.
    pub fn measure_all(&self, buf: &[Scalar]) -> (r: Option<usize>)
        requires
            self.wf(),
        ensures
            r is Some <==> readable_all(self.stores@, buf@),
            r matches Some(n) ==> n == taken_upto(self.stores@, buf@, self.stores@.len() as int) && n
                <= buf@.len(),
    {
        let mut pos: usize = 0;
        let mut k: usize = 0;
        while k < self.stores.len()
            invariant
                self.wf(),
                k <= self.stores@.len(),
                pos == taken_upto(self.stores@, buf@, k as int),
                pos <= buf@.len(),
                forall|j: int|
                    0 <= j < k ==> D::readable(
                        (#[trigger] self.stores@[j]).data.shape(),
                        buf@.skip(taken_upto(self.stores@, buf@, j) as int),
                    ),
            decreases self.stores.len() - k,
        {
            let tail: &[Scalar] = vstd::slice::slice_subrange(buf, pos, buf.len());
            assert(tail@ =~= buf@.skip(pos as int));
            match self.stores[k].data.measure(tail) {
                Some(n) => {
                    pos = pos + n;
                },
                None => {
                    assert(!D::readable(
                        self.stores@[k as int].data.shape(),
                        buf@.skip(taken_upto(self.stores@, buf@, k as int) as int),
                    ));
                    return None;
                },
            }
            k = k + 1;
        }
        Some(pos)
    }

    /// Whether what was saved of the stores can be read.
    pub fn restart_readable(&self, buffers: &Vec<Vec<Scalar>>) -> (r: bool)
        requires
            self.wf(),
        ensures
            r == forall|k: int|
                0 <= k < self.stores@.len() && k < buffers@.len() ==> readable_chain::<D>(
                    (#[trigger] self.stores@[k]).data.shape(),
                    buffers@[k]@,
                ),
    {
        let mut k: usize = 0;
        while k < self.stores.len() && k < buffers.len()
            invariant
                self.wf(),
                k <= self.stores@.len(),
                k <= buffers@.len(),
                forall|j: int|
                    0 <= j < k ==> readable_chain::<D>(
                        (#[trigger] self.stores@[j]).data.shape(),
                        buffers@[j]@,
                    ),
            decreases self.stores.len() - k,
        {
            if !chain_readable(&self.stores[k].data, &buffers[k]) {
                assert(!readable_chain::<D>(
                    self.stores@[k as int].data.shape(),
                    buffers@[k as int]@,
                ));
                return false;
            }
            k = k + 1;
        }
        true
    }

    /// Drops the records of every store that something was saved of, so that what
    /// was saved can take their place.
    pub fn clear_for_restart(&mut self, saved: usize)
        requires
            old(self).wf(),
        ensures
            final(self).wf(),
            final(self).same_stores(old(self)),
            forall|k: int|
                0 <= k < old(self).stores@.len() ==> (#[trigger] final(self).stores@[k]).data.rows()
                    == if k < saved {
                    Seq::empty()
                } else {
                    old(self).stores@[k].data.rows()
                },
    {
        let ghost before: Seq<Entry<D>> = self.stores@;
        let mut k: usize = 0;
        while k < self.stores.len() && k < saved
            invariant
                old(self).wf(),
                before == old(self).stores@,
                k <= self.stores@.len() == before.len(),
                k <= saved,
                forall|j: int| k <= j < before.len() ==> self.stores@[j] == before[j],
                forall|j: int|
                    0 <= j < before.len() ==> (#[trigger] self.stores@[j]).key == before[j].key && alike(
                        self.stores@[j].data,
                        before[j].data,
                    ) && self.stores@[j].data.valid(),
                forall|j: int|
                    0 <= j < k ==> (#[trigger] self.stores@[j]).data.rows() =~= Seq::empty(),
            decreases self.stores.len() - k,
        {
            assert(self.stores@[k as int] == before[k as int]);
            self.stores[k].data.truncate(0);
            k = k + 1;
        }
    }
}

/// Whether `buf` is a chain of records with nothing left over.
fn chain_readable<D: AtomData>(store: &D, buf: &Vec<Scalar>) -> (r: bool)
    requires
        store.valid(),
    ensures
        r == readable_chain::<D>(store.shape(), buf@),
{
    let mut pos: usize = 0;
    assert(buf@.skip(0) =~= buf@);
    while pos < buf.len()
        invariant
            store.valid(),
            pos <= buf@.len(),
            readable_chain::<D>(store.shape(), buf@) == readable_chain::<D>(
                store.shape(),
                buf@.skip(pos as int),
            ),
        decreases buf.len() - pos,
    {
        let ghost rest: Seq<Scalar> = buf@.skip(pos as int);
        let tail: &[Scalar] = vstd::slice::slice_subrange(buf.as_slice(), pos, buf.len());
        assert(tail@ =~= rest);
        match store.measure(tail) {
            Some(n) => {
                if n == 0 {
                    return false;
                }
                assert(rest.skip(n as int) =~= buf@.skip(pos + n));
                pos = pos + n;
            },
            None => {
                return false;
            },
        }
    }
    true
}

/// Appends every record of `buf`.
fn unpack_chain<D: AtomData>(store: &mut D, buf: &Vec<Scalar>)
    requires
        old(store).valid(),
        readable_chain::<D>(old(store).shape(), buf@),
    ensures
        final(store).valid(),
        alike(*final(store), *old(store)),
        final(store).rows() == old(store).rows() + read_chain::<D>(old(store).shape(), buf@),
{
    let ghost shape: Seq<Field> = store.shape();
    let ghost before: Seq<Seq<Scalar>> = store.rows();
    let mut pos: usize = 0;
    assert(buf@.skip(0) =~= buf@);
    while pos < buf.len()
        invariant
            store.valid(),
            alike(*store, *old(store)),
            shape == old(store).shape(),
            pos <= buf@.len(),
            readable_chain::<D>(shape, buf@.skip(pos as int)),
            store.rows() + read_chain::<D>(shape, buf@.skip(pos as int)) == before + read_chain::<D>(
                shape,
                buf@,
            ),
        decreases buf.len() - pos,
    {
        let ghost rows: Seq<Seq<Scalar>> = store.rows();
        let ghost rest: Seq<Scalar> = buf@.skip(pos as int);
        let tail: &[Scalar] = vstd::slice::slice_subrange(buf.as_slice(), pos, buf.len());
        assert(tail@ =~= rest);
        let used: usize = store.unpack(tail);
        proof {
            let row: Seq<Scalar> = D::read(shape, rest);
            let later: Seq<Seq<Scalar>> = read_chain::<D>(shape, rest.skip(used as int));
            assert(rest.skip(used as int) =~= buf@.skip(pos + used));
            assert(rows.push(row) + later =~= rows + (seq![row] + later));
        }
        pos = pos + used;
    }
    proof {
        assert(buf@.skip(pos as int).len() == 0);
        assert(store.rows() + read_chain::<D>(shape, buf@.skip(pos as int)) =~= store.rows());
    }
}

/// The rows of store `k` after ghost `i` received `buf`.
pub open spec fn forward_received<D: AtomData>(
    stores: Seq<Entry<D>>,
    i: int,
    buf: Seq<Scalar>,
    k: int,
) -> Seq<Seq<Scalar>> {
    let d: D = stores[k].data;
    if i < d.rows().len() {
        d.rows().update(
            i,
            D::with_forward(
                d.shape(),
                d.rows()[i],
                buf.subrange(
                    forward_upto(stores, k) as int,
                    forward_upto(stores, k + 1) as int,
                ),
            ),
        )
    } else {
        d.rows()
    }
}

/// The rows of store `k` after owner `i` added `buf`.
pub open spec fn reverse_received<D: AtomData>(
    stores: Seq<Entry<D>>,
    i: int,
    buf: Seq<Scalar>,
    plus: spec_fn(Scalar, Scalar) -> Scalar,
    k: int,
) -> Seq<Seq<Scalar>> {
    let d: D = stores[k].data;
    if i < d.rows().len() {
        d.rows().update(
            i,
            D::with_reverse(
                d.shape(),
                d.rows()[i],
                buf.subrange(
                    reverse_upto(stores, k) as int,
                    reverse_upto(stores, k + 1) as int,
                ),
                plus,
            ),
        )
    } else {
        d.rows()
    }
}

proof fn lemma_forward_grows<D: AtomData>(stores: Seq<Entry<D>>, a: int, b: int)
    requires
        0 <= a <= b,
    ensures
        forward_upto(stores, a) <= forward_upto(stores, b),
    decreases b - a,
{
    if a < b {
        lemma_forward_grows(stores, a, b - 1);
    }
}

proof fn lemma_reverse_grows<D: AtomData>(stores: Seq<Entry<D>>, a: int, b: int)
    requires
        0 <= a <= b,
    ensures
        reverse_upto(stores, a) <= reverse_upto(stores, b),
    decreases b - a,
{
    if a < b {
        lemma_reverse_grows(stores, a, b - 1);
    }
}

} // verus!

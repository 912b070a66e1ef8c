//! Bond topology: for every atom the list of its bonds.

use crate::atom_data::{permuted, swap_removed, AtomData, Field};
use crate::scalar::{
    clamp_int, int_word, lemma_integer_round_trip, Op, Scalar, FRACTION,
};
use vstd::prelude::*;

verus! {

/// One bond of an atom, named by its partner's tag.
#[derive(Clone, Copy, PartialEq, Eq, Structural, Debug)]
pub struct BondEntry {
    pub partner_tag: u32,
    pub bond_type: u32,
    pub r0: Scalar,
}

/// The bonds of every atom, by local index.
pub struct BondStore {
    pub bonds: Vec<Vec<BondEntry>>,
}

/// The packed form of the first `k` bonds: tag, type and rest length of each.
pub open spec fn bond_words(list: Seq<BondEntry>, k: int) -> Seq<Scalar>
    decreases k,
{
    if k <= 0 {
        Seq::empty()
    } else {
        bond_words(list, k - 1) + seq![
            int_word(list[k - 1].partner_tag as int),
            int_word(list[k - 1].bond_type as int),
            list[k - 1].r0,
        ]
    }
}

/// The packed form of a bond list: the number of bonds, then the bonds.
pub open spec fn bond_row(list: Seq<BondEntry>) -> Seq<Scalar> {
    seq![int_word(list.len() as int)] + bond_words(list, list.len() as int)
}

/// The number of bonds that a packed list announces.
pub open spec fn bond_count(buf: Seq<Scalar>) -> int {
    clamp_int(buf[0].integer_part(), 0, usize::MAX as int)
}

/// The bond that is read at position `1 + 3 * k`.
pub open spec fn bond_at(buf: Seq<Scalar>, k: int) -> BondEntry {
    BondEntry {
        partner_tag: clamp_int(buf[1 + 3 * k].integer_part(), 0, u32::MAX as int) as u32,
        bond_type: clamp_int(buf[2 + 3 * k].integer_part(), 0, u32::MAX as int) as u32,
        r0: buf[3 + 3 * k],
    }
}

/// The bond list that is read from the head of `buf`.
pub open spec fn bonds_at(buf: Seq<Scalar>) -> Seq<BondEntry> {
    Seq::new(bond_count(buf) as nat, |k: int| bond_at(buf, k))
}

/// One of the bonds leads to the atom with this tag.
pub open spec fn bonded_to(list: Seq<BondEntry>, tag: u32) -> bool {
    exists|k: int| 0 <= k < list.len() && (#[trigger] list[k]).partner_tag == tag
}

/// Two atoms have a bonded partner in common.
pub open spec fn share_partner(a: Seq<BondEntry>, b: Seq<BondEntry>) -> bool {
    exists|j: int, k: int|
        0 <= j < a.len() && 0 <= k < b.len() && (#[trigger] a[j]).partner_tag == (
        #[trigger] b[k]).partner_tag
}

/// The pair is excluded from contact forces: its atoms are bonded to each
/// other or to a common partner.
pub open spec fn excluded(store: BondStore, i: int, j: int, tags: Seq<u32>) -> bool {
    &&& i < store.bonds@.len()
    &&& j < store.bonds@.len()
    &&& bonded_to(store.bonds@[i]@, tags[j]) || share_partner(store.bonds@[i]@, store.bonds@[j]@)
}

proof fn lemma_bond_words(list: Seq<BondEntry>, k: int)
    requires
        0 <= k <= list.len(),
    ensures
        bond_words(list, k).len() == 3 * k,
        forall|m: int|
            0 <= m < k ==> bond_words(list, k)[3 * m] == int_word(
                (#[trigger] list[m]).partner_tag as int,
            ) && bond_words(list, k)[3 * m + 1] == int_word(list[m].bond_type as int) && bond_words(
                list,
                k,
            )[3 * m + 2] == list[m].r0,
    decreases k,
{
    if k > 0 {
        lemma_bond_words(list, k - 1);
    }
}

/// A packed bond list reads back as itself, whatever follows it.
pub proof fn bond_list_round_trip(list: Seq<BondEntry>, rest: Seq<Scalar>)
    requires
        list.len() <= 2 * FRACTION,
        list.len() <= usize::MAX,
    ensures
        bond_count(bond_row(list) + rest) == list.len(),
        bonds_at(bond_row(list) + rest) == list,
        bond_row(list).len() == 1 + 3 * list.len(),
{
    let n: int = list.len() as int;
    let buf: Seq<Scalar> = bond_row(list) + rest;
    lemma_bond_words(list, n);
    lemma_int_word(n);
    assert(buf[0] == int_word(n));
    assert forall|k: int| 0 <= k < n implies #[trigger] bond_at(buf, k) == list[k] by {
        lemma_int_word(list[k].partner_tag as int);
        lemma_int_word(list[k].bond_type as int);
        assert(buf[1 + 3 * k] == bond_words(list, n)[3 * k]);
        assert(buf[2 + 3 * k] == bond_words(list, n)[3 * k + 1]);
        assert(buf[3 + 3 * k] == bond_words(list, n)[3 * k + 2]);
    }
    assert(bonds_at(buf) =~= list);
}

/// Small integers have a number that holds them.
pub proof fn lemma_int_word(x: int)
    requires
        0 <= x <= 2 * FRACTION,
    ensures
        int_word(x).holds(x),
        int_word(x).integer_part() == x,
{
    crate::scalar::lemma_integer_exists(x);
    lemma_integer_round_trip(int_word(x), x);
}

/// Where every bond is known to both its atoms, exclusion does not depend on
/// the order of the pair.
pub proof fn exclusion_is_symmetric(store: BondStore, i: int, j: int, tags: Seq<u32>)
    requires
        0 <= i < store.bonds@.len(),
        0 <= j < store.bonds@.len(),
        bonded_to(store.bonds@[i]@, tags[j]) == bonded_to(store.bonds@[j]@, tags[i]),
    ensures
        excluded(store, i, j, tags) == excluded(store, j, i, tags),
{
    let (a, b): (Seq<BondEntry>, Seq<BondEntry>) = (store.bonds@[i]@, store.bonds@[j]@);
    if share_partner(a, b) {
        let (p, q): (int, int) = choose|p: int, q: int|
            0 <= p < a.len() && 0 <= q < b.len() && (#[trigger] a[p]).partner_tag == (
            #[trigger] b[q]).partner_tag;
        assert(b[q].partner_tag == a[p].partner_tag);
    }
    if share_partner(b, a) {
        let (p, q): (int, int) = choose|p: int, q: int|
            0 <= p < b.len() && 0 <= q < a.len() && (#[trigger] b[p]).partner_tag == (
            #[trigger] a[q]).partner_tag;
        assert(a[q].partner_tag == b[p].partner_tag);
    }
}

fn copy_list(list: &Vec<BondEntry>) -> (r: Vec<BondEntry>)
    ensures
        r@ == list@,
{
    let mut out: Vec<BondEntry> = Vec::with_capacity(list.len());
    let mut k: usize = 0;
    while k < list.len()
        invariant
            k <= list@.len(),
            out@ == list@.take(k as int),
        decreases list.len() - k,
    {
        out.push(list[k]);
        k = k + 1;
        assert(out@ =~= list@.take(k as int));
    }
    assert(list@.take(k as int) =~= list@);
    out
}

impl BondStore {
    pub fn new() -> (r: Self)
        ensures
            r.bonds@.len() == 0,
    {
        BondStore { bonds: Vec::new() }
    }

    /// Whether local atom `i` has a bond to the atom with tag `partner_tag`.
    pub fn has_bond(&self, i: usize, partner_tag: u32) -> (r: bool)
        ensures
            r == (i < self.bonds@.len() && bonded_to(self.bonds@[i as int]@, partner_tag)),
    {
        if i >= self.bonds.len() {
            return false;
        }
        let list: &Vec<BondEntry> = &self.bonds[i];
        let mut k: usize = 0;
        while k < list.len()
            invariant
                k <= list@.len(),
                i < self.bonds@.len(),
                list@ == self.bonds@[i as int]@,
                forall|m: int| 0 <= m < k ==> (#[trigger] list@[m]).partner_tag != partner_tag,
            decreases list.len() - k,
        {
            if list[k].partner_tag == partner_tag {
                return true;
            }
            k = k + 1;
        }
        false
    }

    /// Whether the pair is excluded from contact forces.
    pub fn are_excluded(&self, i: usize, j: usize, tags: &[u32]) -> (r: bool)
        requires
            i < self.bonds@.len() && j < self.bonds@.len() ==> j < tags@.len(),
        ensures
            r == excluded(*self, i as int, j as int, tags@),
    {
        if i >= self.bonds.len() || j >= self.bonds.len() {
            return false;
        }
        if self.has_bond(i, tags[j]) {
            return true;
        }
        let a: &Vec<BondEntry> = &self.bonds[i];
        let mut p: usize = 0;
        while p < a.len()
            invariant
                p <= a@.len(),
                i < self.bonds@.len(),
                j < self.bonds@.len(),
                a@ == self.bonds@[i as int]@,
                forall|m: int|
                    0 <= m < p ==> !bonded_to(
                        self.bonds@[j as int]@,
                        (#[trigger] a@[m]).partner_tag,
                    ),
            decreases a.len() - p,
        {
            if self.has_bond(j, a[p].partner_tag) {
                proof {
                    let b: Seq<BondEntry> = self.bonds@[j as int]@;
                    let q: int = choose|q: int|
                        0 <= q < b.len() && (#[trigger] b[q]).partner_tag == a@[p as int].partner_tag;
                    assert(a@[p as int].partner_tag == b[q].partner_tag);
                }
                return true;
            }
            p = p + 1;
        }
        proof {
            let b: Seq<BondEntry> = self.bonds@[j as int]@;
            if share_partner(a@, b) {
                let (m, q): (int, int) = choose|m: int, q: int|
                    0 <= m < a@.len() && 0 <= q < b.len() && (#[trigger] a@[m]).partner_tag == (
                    #[trigger] b[q]).partner_tag;
                assert(bonded_to(b, a@[m].partner_tag));
            }
        }
        false
    }
}

impl AtomData for BondStore {
    open spec fn shape(&self) -> Seq<Field> {
        Seq::empty()
    }

    open spec fn valid(&self) -> bool {
        forall|i: int| 0 <= i < self.bonds@.len() ==> (#[trigger] self.bonds@[i])@.len() <= 2 * FRACTION
    }

    open spec fn rows(&self) -> Seq<Seq<Scalar>> {
        Seq::new(self.bonds@.len(), |i: int| bond_row(self.bonds@[i]@))
    }

    open spec fn lenient(&self) -> bool {
        true
    }

    open spec fn blank() -> Seq<Scalar> {
        seq![int_word(0)]
    }

    open spec fn readable(shape: Seq<Field>, buf: Seq<Scalar>) -> bool {
        buf.len() >= 1 && 1 + 3 * bond_count(buf) <= buf.len() && bond_count(buf) <= 2 * FRACTION
    }

    open spec fn taken(shape: Seq<Field>, buf: Seq<Scalar>) -> nat {
        (1 + 3 * bond_count(buf)) as nat
    }

    open spec fn read(shape: Seq<Field>, buf: Seq<Scalar>) -> Seq<Scalar> {
        bond_row(bonds_at(buf))
    }

    open spec fn forward_part(shape: Seq<Field>, row: Seq<Scalar>) -> Seq<Scalar> {
        Seq::empty()
    }

    open spec fn with_forward(shape: Seq<Field>, row: Seq<Scalar>, words: Seq<Scalar>) -> Seq<Scalar> {
        row
    }

    open spec fn forward_size(shape: Seq<Field>) -> nat {
        0
    }

    open spec fn reverse_part(shape: Seq<Field>, row: Seq<Scalar>) -> Seq<Scalar> {
        Seq::empty()
    }

    open spec fn with_reverse(
        shape: Seq<Field>,
        row: Seq<Scalar>,
        words: Seq<Scalar>,
        plus: spec_fn(Scalar, Scalar) -> Scalar,
    ) -> Seq<Scalar> {
        row
    }

    open spec fn reverse_size(shape: Seq<Field>) -> nat {
        0
    }

    open spec fn zeroed(shape: Seq<Field>, row: Seq<Scalar>) -> Seq<Scalar> {
        row
    }

    proof fn record_round_trip(&self, i: int, rest: Seq<Scalar>) {
        let list: Seq<BondEntry> = self.bonds@[i]@;
        assert(self.bonds@[i].len() == list.len());
        bond_list_round_trip(list, rest);
    }

    proof fn message_sizes(&self, i: int) {
    }

    proof fn forward_arrives(&self, i: int, words: Seq<Scalar>) {
        assert(words =~= Seq::<Scalar>::empty());
    }

    fn truncate(&mut self, n: usize)
        ensures
            n > old(self).bonds@.len() ==> final(self).bonds@.len() == n && forall|k: int|
                old(self).bonds@.len() <= k < n ==> (#[trigger] final(self).bonds@[k])@.len() == 0,
            n <= old(self).bonds@.len() ==> final(self).bonds@ == old(self).bonds@.take(n as int),
    {
        let ghost before: Seq<Vec<BondEntry>> = self.bonds@;
        while self.bonds.len() < n
            invariant
                old(self).valid(),
                before == old(self).bonds@,
                self.bonds@.len() >= before.len(),
                self.bonds@.len() > before.len() ==> self.bonds@.len() <= n,
                self.bonds@.take(before.len() as int) == before,
                forall|k: int|
                    before.len() <= k < self.bonds@.len() ==> (#[trigger] self.bonds@[k])@.len() == 0,
            decreases n - self.bonds.len(),
        {
            let ghost mid: Seq<Vec<BondEntry>> = self.bonds@;
            self.bonds.push(Vec::new());
            assert(self.bonds@.take(before.len() as int) =~= mid.take(before.len() as int));
        }
        self.bonds.truncate(n);
        proof {
            if n <= before.len() {
                assert(self.bonds@ =~= before.take(n as int));
                assert(self.rows() =~= old(self).rows().take(n as int));
            } else {
                assert forall|k: int| 0 <= k < before.len() implies self.bonds@[k] == before[k] by {
                    assert(self.bonds@.take(before.len() as int)[k] == self.bonds@[k]);
                }
                assert(self.rows().take(before.len() as int) =~= old(self).rows());
            }
        }
    }

    fn swap_remove(&mut self, i: usize)
        ensures
            i < old(self).bonds@.len() ==> final(self).bonds@ == swap_removed(
                old(self).bonds@,
                i as int,
            ),
            i >= old(self).bonds@.len() ==> final(self).bonds@ == old(self).bonds@,
    {
        if i < self.bonds.len() {
            self.bonds.swap_remove(i);
            assert(self.rows() =~= swap_removed(old(self).rows(), i as int));
        }
    }

    fn pack(&self, i: usize, buf: &mut Vec<Scalar>) {
        let ghost before: Seq<Scalar> = buf@;
        if i < self.bonds.len() {
            let list: &Vec<BondEntry> = &self.bonds[i];
            buf.push(Scalar::from_u64(list.len() as u64));
            let mut k: usize = 0;
            let ghost head: Seq<Scalar> = seq![int_word(list@.len() as int)];
            assert(buf@ =~= before + (head + bond_words(list@, 0)));
            while k < list.len()
                invariant
                    k <= list@.len(),
                    buf@ == before + (head + bond_words(list@, k as int)),
                decreases list.len() - k,
            {
                buf.push(Scalar::from_u64(list[k].partner_tag as u64));
                buf.push(Scalar::from_u64(list[k].bond_type as u64));
                buf.push(list[k].r0);
                k = k + 1;
                assert(buf@ =~= before + (head + bond_words(list@, k as int)));
            }
        } else {
            let none: Scalar = Scalar::from_u64(0);
            buf.push(none);
            assert(buf@ =~= before + seq![int_word(0)]);
        }
    }

    fn unpack(&mut self, buf: &[Scalar]) -> (r: usize)
        ensures
            final(self).bonds@.len() == old(self).bonds@.len() + 1,
            final(self).bonds@.last()@ == bonds_at(buf@),
    {
        let count: usize = buf[0].to_usize();
        let mut list: Vec<BondEntry> = Vec::with_capacity(count);
        let mut pos: usize = 1;
        let mut k: usize = 0;
        while k < count
            invariant
                k <= count,
                count == bond_count(buf@),
                1 + 3 * count <= buf@.len(),
                pos == 1 + 3 * k,
                list@ == bonds_at(buf@).take(k as int),
            decreases count - k,
        {
            let partner_tag: u32 = buf[pos].to_u32();
            let bond_type: u32 = buf[pos + 1].to_u32();
            let r0: Scalar = buf[pos + 2];
            list.push(BondEntry { partner_tag, bond_type, r0 });
            pos = pos + 3;
            k = k + 1;
            assert(list@ =~= bonds_at(buf@).take(k as int));
        }
        assert(list@ =~= bonds_at(buf@));
        let ghost before: Seq<Seq<Scalar>> = self.rows();
        self.bonds.push(list);
        assert(self.rows() =~= before.push(bond_row(bonds_at(buf@))));
        pos
    }

    fn measure(&self, buf: &[Scalar]) -> (r: Option<usize>) {
        if buf.len() == 0 {
            return None;
        }
        let count: usize = buf[0].to_usize();
        if count as u64 > 2 * FRACTION || count > (buf.len() - 1) / 3 {
            return None;
        }
        Some(1 + 3 * count)
    }

    fn apply_permutation(&mut self, perm: &[usize], n: usize) {
        let ghost before: Seq<Vec<BondEntry>> = self.bonds@;
        let mut scratch: Vec<Vec<BondEntry>> = Vec::with_capacity(n);
        let mut i: usize = 0;
        while i < n
            invariant
                i <= n,
                perm@.len() == n,
                self.bonds@ == before,
                forall|k: int| 0 <= k < n ==> #[trigger] perm@[k] < before.len(),
                scratch@.len() == i,
                forall|k: int|
                    0 <= k < i ==> (#[trigger] scratch@[k])@ == before[perm@[k] as int]@,
            decreases n - i,
        {
            scratch.push(copy_list(&self.bonds[perm[i]]));
            i = i + 1;
        }
        while i > 0
            invariant
                i <= n <= before.len(),
                perm@.len() == n,
                scratch@.len() == i,
                self.bonds@.len() == before.len(),
                forall|k: int|
                    0 <= k < i ==> (#[trigger] scratch@[k])@ == before[perm@[k] as int]@,
                forall|k: int|
                    i <= k < n ==> (#[trigger] self.bonds@[k])@ == before[perm@[k] as int]@,
                forall|k: int| n <= k < before.len() ==> self.bonds@[k] == before[k],
            decreases i,
        {
            i = i - 1;
            let list: Vec<BondEntry> = scratch.pop().unwrap();
            self.bonds.set(i, list);
        }
        proof {
            assert forall|k: int| 0 <= k < before.len() implies (#[trigger] self.bonds@[k])@.len() <= 2
                * FRACTION by {
                if k < n {
                    assert(before[perm@[k] as int]@.len() <= 2 * FRACTION);
                } else {
                    assert(before[k]@.len() <= 2 * FRACTION);
                }
            }
            assert(self.rows() =~= permuted(old(self).rows(), perm@));
        }
    }

    fn pack_forward(&self, i: usize, buf: &mut Vec<Scalar>) {
        assert(buf@ + Seq::<Scalar>::empty() =~= buf@);
    }

    fn unpack_forward(&mut self, i: usize, buf: &[Scalar]) -> (r: usize)
        ensures
            r == 0,
            *final(self) == *old(self),
    {
        proof {
            if i < self.rows().len() {
                assert(self.rows() =~= self.rows().update(i as int, self.rows()[i as int]));
            }
        }
        0
    }

    fn pack_reverse(&self, i: usize, buf: &mut Vec<Scalar>) {
        assert(buf@ + Seq::<Scalar>::empty() =~= buf@);
    }

    fn unpack_reverse<F: Fn(Op, Scalar, Scalar, Scalar) -> Scalar>(&mut self, i: usize, buf: &[Scalar], ar: &F) -> (r:
        usize)
        ensures
            r == 0,
            *final(self) == *old(self),
    {
        proof {
            if i < self.rows().len() {
                assert(self.rows() =~= self.rows().update(i as int, self.rows()[i as int]));
            }
        }
        0
    }

    fn zero(&mut self, n: usize)
        ensures
            *final(self) == *old(self),
    {
        proof {
            let shape: Seq<Field> = self.shape();
            assert(self.rows() =~= self.rows().map_values(
                |row: Seq<Scalar>| Self::zeroed(shape, row),
            ));
        }
    }

    fn forward_comm_size(&self) -> (r: usize) {
        0
    }

    fn reverse_comm_size(&self) -> (r: usize) {
        0
    }
}

} // verus!

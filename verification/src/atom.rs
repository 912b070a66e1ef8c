//! The atom arrays: one entry per local or ghost atom in each of them.

use crate::atom_data::{permuted, swap_removed, AtomData, AtomDataRegistry};
use crate::bond::lemma_int_word;
use crate::energy::{exact_kinetic, kinetic_sum_is_twice_the_energy, twice_energy};
use crate::exact::{
    exact_product, exact_quotient, exact_sum, is_num, lemma_constants, lemma_divided,
    lemma_mul_add, num,
};
use crate::scalar::{
    clamp_int, int_word, is_arithmetic, lemma_integer_round_trip, over, plus, product, quotient,
    sum, times, Op, Scalar, Vec3, FRACTION,
};
use vstd::prelude::*;

verus! {

/// The number of values in a packed atom.
pub const ATOM_PACK_SIZE: usize = 17;

/// Everything the arrays hold of one atom.
pub struct Record {
    pub tag: u32,
    pub atom_type: u32,
    pub origin_index: i32,
    pub is_ghost: bool,
    pub pos: Vec3,
    pub vel: Vec3,
    pub force: Vec3,
    pub cutoff_radius: Scalar,
    pub mass: Scalar,
    pub inv_mass: Scalar,
    pub image: [i32; 3],
}

/// The atoms of this process: `nlocal` owned atoms, then `nghost` ghosts.
pub struct Atom {
    pub natoms: u64,
    pub nlocal: u32,
    pub nghost: u32,
    pub ntypes: usize,
    pub dt: Scalar,
    pub tag: Vec<u32>,
    pub atom_type: Vec<u32>,
    pub origin_index: Vec<i32>,
    pub is_ghost: Vec<bool>,
    pub pos: Vec<Vec3>,
    pub vel: Vec<Vec3>,
    pub force: Vec<Vec3>,
    pub cutoff_radius: Vec<Scalar>,
    pub mass: Vec<Scalar>,
    pub inv_mass: Vec<Scalar>,
    pub image: Vec<[i32; 3]>,
}

/// The packed form of an atom.
pub open spec fn atom_words(rec: Record, origin: int, shifted: Seq<Scalar>) -> Seq<Scalar> {
    seq![
        int_word(rec.tag as int),
        int_word(origin),
        rec.cutoff_radius,
        int_word(rec.atom_type as int),
        shifted[0],
        shifted[1],
        shifted[2],
        rec.vel[0],
        rec.vel[1],
        rec.vel[2],
        rec.force[0],
        rec.force[1],
        rec.force[2],
        rec.mass,
        int_word(rec.image[0] as int),
        int_word(rec.image[1] as int),
        int_word(rec.image[2] as int),
    ]
}

/// A position moved by an offset.
pub open spec fn moved<F: Fn(Op, Scalar, Scalar, Scalar) -> Scalar>(ar: F, pos: Vec3, by: Vec3) -> Seq<Scalar> {
    seq![
        sum(ar, pos[0], by[0]),
        sum(ar, pos[1], by[1]),
        sum(ar, pos[2], by[2]),
    ]
}

/// `a` holds the three numbers from `at` on.
pub open spec fn holds_triple(a: Vec3, buf: Seq<Scalar>, at: int) -> bool {
    a[0] == buf[at] && a[1] == buf[at + 1] && a[2] == buf[at + 2]
}

pub open spec fn to_tag(w: Scalar) -> int {
    clamp_int(w.integer_part(), 0, u32::MAX as int)
}

pub open spec fn to_signed(w: Scalar) -> int {
    clamp_int(w.integer_part(), i32::MIN as int, i32::MAX as int)
}

/// `rec` is the atom that is read from the head of `buf`.
pub open spec fn reads_as(rec: Record, buf: Seq<Scalar>, is_ghost: bool, inv_mass: Scalar) -> bool {
    &&& rec.tag == to_tag(buf[0])
    &&& rec.origin_index == to_signed(buf[1])
    &&& rec.cutoff_radius == buf[2]
    &&& rec.atom_type == to_tag(buf[3])
    &&& holds_triple(rec.pos, buf, 4)
    &&& holds_triple(rec.vel, buf, 7)
    &&& holds_triple(rec.force, buf, 10)
    &&& rec.mass == buf[13]
    &&& rec.inv_mass == inv_mass
    &&& rec.image[0] == to_signed(buf[14])
    &&& rec.image[1] == to_signed(buf[15])
    &&& rec.image[2] == to_signed(buf[16])
    &&& rec.is_ghost == is_ghost
}

/// Puts element `perm[i]` in place `i` for the first `n` elements.
pub fn gather<T: Copy>(v: &mut Vec<T>, perm: &[usize], n: usize)
    requires
        perm@.len() == n <= old(v)@.len(),
        forall|i: int| 0 <= i < n ==> #[trigger] perm@[i] < old(v)@.len(),
    ensures
        final(v)@ == permuted(old(v)@, perm@),
{
    let ghost before: Seq<T> = v@;
    let mut scratch: Vec<T> = Vec::with_capacity(n);
    let mut i: usize = 0;
    while i < n
        invariant
            i <= n == perm@.len(),
            v@ == before,
            forall|k: int| 0 <= k < n ==> #[trigger] perm@[k] < before.len(),
            scratch@.len() == i,
            forall|k: int| 0 <= k < i ==> #[trigger] scratch@[k] == before[perm@[k] as int],
        decreases n - i,
    {
        scratch.push(v[perm[i]]);
        i = i + 1;
    }
    i = 0;
    while i < n
        invariant
            i <= n == perm@.len(),
            n <= before.len(),
            v@.len() == before.len(),
            scratch@.len() == n,
            forall|k: int| 0 <= k < n ==> #[trigger] scratch@[k] == before[perm@[k] as int],
            forall|k: int| 0 <= k < i ==> #[trigger] v@[k] == before[perm@[k] as int],
            forall|k: int| n <= k < before.len() ==> #[trigger] v@[k] == before[k],
        decreases n - i,
    {
        v.set(i, scratch[i]);
        i = i + 1;
    }
    assert(v@ =~= permuted(before, perm@));
}

impl Atom {
    /// All arrays have the same length.
    pub open spec fn wf(&self) -> bool {
        let n = self.pos@.len();
        &&& self.tag@.len() == n
        &&& self.atom_type@.len() == n
        &&& self.origin_index@.len() == n
        &&& self.is_ghost@.len() == n
        &&& self.vel@.len() == n
        &&& self.force@.len() == n
        &&& self.cutoff_radius@.len() == n
        &&& self.mass@.len() == n
        &&& self.inv_mass@.len() == n
        &&& self.image@.len() == n
    }

    /// The entry of atom `i` in every array.
    pub open spec fn record(&self, i: int) -> Record {
        Record {
            tag: self.tag@[i],
            atom_type: self.atom_type@[i],
            origin_index: self.origin_index@[i],
            is_ghost: self.is_ghost@[i],
            pos: self.pos@[i],
            vel: self.vel@[i],
            force: self.force@[i],
            cutoff_radius: self.cutoff_radius@[i],
            mass: self.mass@[i],
            inv_mass: self.inv_mass@[i],
            image: self.image@[i],
        }
    }

    /// The atoms, one record each.
    pub open spec fn records(&self) -> Seq<Record> {
        Seq::new(self.pos@.len(), |i: int| self.record(i))
    }

    /// The fields beside the arrays agree.
    pub open spec fn same_header(&self, other: &Atom) -> bool {
        &&& self.natoms == other.natoms
        &&& self.nlocal == other.nlocal
        &&& self.nghost == other.nghost
        &&& self.ntypes == other.ntypes
        &&& self.dt == other.dt
    }

    /// No atoms.
    pub fn new() -> (r: Atom)
        ensures
            r.wf(),
            r.records().len() == 0,
            r.natoms == 0,
            r.nlocal == 0,
            r.nghost == 0,
            r.ntypes == 1,
            r.dt == Scalar::one(),
    {
        Atom {
            natoms: 0,
            nlocal: 0,
            nghost: 0,
            ntypes: 1,
            dt: Scalar::one(),
            tag: Vec::new(),
            atom_type: Vec::new(),
            origin_index: Vec::new(),
            is_ghost: Vec::new(),
            pos: Vec::new(),
            vel: Vec::new(),
            force: Vec::new(),
            cutoff_radius: Vec::new(),
            mass: Vec::new(),
            inv_mass: Vec::new(),
            image: Vec::new(),
        }
    }

    /// Removes atom `i`; the last atom takes its place.
    pub fn swap_remove(&mut self, i: usize)
        requires
            old(self).wf(),
            i < old(self).records().len(),
        ensures
            final(self).wf(),
            final(self).same_header(old(self)),
            final(self).records() == swap_removed(old(self).records(), i as int),
    {
        self.tag.swap_remove(i);
        self.atom_type.swap_remove(i);
        self.origin_index.swap_remove(i);
        self.is_ghost.swap_remove(i);
        self.pos.swap_remove(i);
        self.vel.swap_remove(i);
        self.force.swap_remove(i);
        self.cutoff_radius.swap_remove(i);
        self.mass.swap_remove(i);
        self.inv_mass.swap_remove(i);
        self.image.swap_remove(i);
        assert(self.records() =~= swap_removed(old(self).records(), i as int));
    }

    /// Keeps the local atoms.
    pub fn truncate_to_nlocal(&mut self)
        requires
            old(self).wf(),
        ensures
            final(self).wf(),
            final(self).same_header(old(self)),
            old(self).nlocal <= old(self).records().len() ==> final(self).records()
                == old(self).records().take(old(self).nlocal as int),
            old(self).nlocal > old(self).records().len() ==> final(self).records()
                == old(self).records(),
    {
        let n: usize = self.nlocal as usize;
        self.tag.truncate(n);
        self.atom_type.truncate(n);
        self.origin_index.truncate(n);
        self.is_ghost.truncate(n);
        self.pos.truncate(n);
        self.vel.truncate(n);
        self.force.truncate(n);
        self.cutoff_radius.truncate(n);
        self.mass.truncate(n);
        self.inv_mass.truncate(n);
        self.image.truncate(n);
        proof {
            if n <= old(self).records().len() {
                assert(self.records() =~= old(self).records().take(n as int));
            } else {
                assert(self.records() =~= old(self).records());
            }
        }
    }

    /// Makes room for more atoms.
    pub fn reserve(&mut self, additional: usize)
        requires
            old(self).wf(),
        ensures
            final(self).wf(),
            final(self).same_header(old(self)),
            final(self).records() == old(self).records(),
    {
        self.tag.reserve(additional);
        self.atom_type.reserve(additional);
        self.origin_index.reserve(additional);
        self.is_ghost.reserve(additional);
        self.pos.reserve(additional);
        self.vel.reserve(additional);
        self.force.reserve(additional);
        self.cutoff_radius.reserve(additional);
        self.mass.reserve(additional);
        self.inv_mass.reserve(additional);
        self.image.reserve(additional);
        assert(self.records() =~= old(self).records());
    }

    /// Puts atom `perm[i]` in place `i` for the first `n` atoms.
    pub fn apply_permutation(&mut self, perm: &[usize], n: usize)
        requires
            old(self).wf(),
            perm@.len() == n <= old(self).records().len(),
            forall|i: int| 0 <= i < n ==> #[trigger] perm@[i] < old(self).records().len(),
        ensures
            final(self).wf(),
            final(self).same_header(old(self)),
            final(self).records() == permuted(old(self).records(), perm@),
    {
        gather(&mut self.tag, perm, n);
        gather(&mut self.atom_type, perm, n);
        gather(&mut self.origin_index, perm, n);
        gather(&mut self.is_ghost, perm, n);
        gather(&mut self.pos, perm, n);
        gather(&mut self.vel, perm, n);
        gather(&mut self.force, perm, n);
        gather(&mut self.cutoff_radius, perm, n);
        gather(&mut self.mass, perm, n);
        gather(&mut self.inv_mass, perm, n);
        gather(&mut self.image, perm, n);
        assert(self.records() =~= permuted(old(self).records(), perm@));
    }

    /// The number of atoms, ghosts included.
    pub fn len(&self) -> (r: usize)
        ensures
            r == self.records().len(),
    {
        self.pos.len()
    }

    pub fn is_empty(&self) -> (r: bool)
        ensures
            r == (self.records().len() == 0),
    {
        self.pos.len() == 0
    }

    /// One coordinate of an atom.
    pub fn pos_component(&self, i: usize, dim: usize) -> (r: Scalar)
        requires
            i < self.records().len(),
            dim < 3,
        ensures
            r == self.pos@[i as int][dim as int],
    {
        self.pos[i][dim]
    }

    /// The greatest tag, or 0 without atoms.
    pub fn get_max_tag(&self) -> (r: u32)
        ensures
            forall|i: int| 0 <= i < self.tag@.len() ==> #[trigger] self.tag@[i] <= r,
            self.tag@.len() > 0 ==> self.tag@.contains(r),
            self.tag@.len() == 0 ==> r == 0,
    {
        if self.tag.len() == 0 {
            return 0;
        }
        let mut best: u32 = self.tag[0];
        let mut k: usize = 1;
        assert(self.tag@[0] == best);
        while k < self.tag.len()
            invariant
                1 <= k <= self.tag@.len(),
                forall|i: int| 0 <= i < k ==> #[trigger] self.tag@[i] <= best,
                self.tag@.contains(best),
            decreases self.tag.len() - k,
        {
            if self.tag[k] > best {
                best = self.tag[k];
                assert(self.tag@[k as int] == best);
            }
            k = k + 1;
        }
        best
    }

    fn pack_atom_inner<F: Fn(Op, Scalar, Scalar, Scalar) -> Scalar>(
        &self,
        i: usize,
        origin: u64,
        offset: Vec3,
        buf: &mut Vec<Scalar>,
        ar: &F,
    )
        requires
            is_arithmetic(*ar),
            self.wf(),
            i < self.records().len(),
            origin <= 2 * FRACTION,
        ensures
            final(buf)@ == old(buf)@ + atom_words(
                self.record(i as int),
                origin as int,
                moved(*ar, self.pos@[i as int], offset),
            ),
    {
        let ghost before: Seq<Scalar> = buf@;
        let pos: Vec3 = self.pos[i];
        let vel: Vec3 = self.vel[i];
        let force: Vec3 = self.force[i];
        let image: [i32; 3] = self.image[i];
        buf.push(Scalar::from_u64(self.tag[i] as u64));
        buf.push(Scalar::from_u64(origin));
        buf.push(self.cutoff_radius[i]);
        buf.push(Scalar::from_u64(self.atom_type[i] as u64));
        buf.push(plus(ar, pos[0], offset[0]));
        buf.push(plus(ar, pos[1], offset[1]));
        buf.push(plus(ar, pos[2], offset[2]));
        buf.push(vel[0]);
        buf.push(vel[1]);
        buf.push(vel[2]);
        buf.push(force[0]);
        buf.push(force[1]);
        buf.push(force[2]);
        buf.push(self.mass[i]);
        buf.push(Scalar::from_i32(image[0]));
        buf.push(Scalar::from_i32(image[1]));
        buf.push(Scalar::from_i32(image[2]));
        assert(buf@ =~= before + atom_words(
            self.record(i as int),
            origin as int,
            moved(*ar, self.pos@[i as int], offset),
        ));
    }

    /// Packs atom `i` for a new owner.
    pub fn pack_exchange<F: Fn(Op, Scalar, Scalar, Scalar) -> Scalar>(
        &self,
        i: usize,
        buf: &mut Vec<Scalar>,
        ar: &F,
    )
        requires
            is_arithmetic(*ar),
            self.wf(),
            i < self.records().len(),
        ensures
            final(buf)@ == old(buf)@ + exchange_words(*self, i as int, *ar),
    {
        let zero: Scalar = Scalar::zero();
        let offset: Vec3 = [zero, zero, zero];
        self.pack_atom_inner(i, 0, offset, buf, ar);
        proof {
            let p: Vec3 = self.pos@[i as int];
            assert(moved(*ar, p, offset) =~= moved(*ar, p, no_offset()));
        }
    }

    /// Packs atom `i` as a ghost of itself, moved by `change_pos`.
    pub fn pack_border<F: Fn(Op, Scalar, Scalar, Scalar) -> Scalar>(
        &self,
        i: usize,
        change_pos: Vec3,
        buf: &mut Vec<Scalar>,
        ar: &F,
    )
        requires
            is_arithmetic(*ar),
            self.wf(),
            i < self.records().len(),
            i <= 2 * FRACTION,
        ensures
            final(buf)@ == old(buf)@ + border_words(*self, i as int, change_pos, *ar),
    {
        self.pack_atom_inner(i, i as u64, change_pos, buf, ar);
    }

    /// Appends the atom at the head of `buf`.
    pub fn unpack_atom<F: Fn(Op, Scalar, Scalar, Scalar) -> Scalar>(
        &mut self,
        buf: &[Scalar],
        is_ghost: bool,
        ar: &F,
    ) -> (r: usize)
        requires
            is_arithmetic(*ar),
            old(self).wf(),
            buf@.len() >= ATOM_PACK_SIZE,
        ensures
            r == ATOM_PACK_SIZE,
            final(self).wf(),
            final(self).same_header(old(self)),
            final(self).records().len() == old(self).records().len() + 1,
            final(self).records().drop_last() == old(self).records(),
            reads_as(
                final(self).records().last(),
                buf@,
                is_ghost,
                quotient(*ar, Scalar::one(), buf@[13]),
            ),
            exact_quotient(*ar, Scalar::one(), buf@[13]) ==> num(
                final(self).records().last().inv_mass,
            ) * num(final(self).records().last().mass) == 1real,
    {
        self.tag.push(buf[0].to_u32());
        self.origin_index.push(buf[1].to_i32());
        self.cutoff_radius.push(buf[2]);
        self.atom_type.push(buf[3].to_u32());
        self.pos.push([buf[4], buf[5], buf[6]]);
        self.vel.push([buf[7], buf[8], buf[9]]);
        self.force.push([buf[10], buf[11], buf[12]]);
        self.mass.push(buf[13]);
        self.inv_mass.push(over(ar, Scalar::one(), buf[13]));
        self.image.push([buf[14].to_i32(), buf[15].to_i32(), buf[16].to_i32()]);
        self.is_ghost.push(is_ghost);
        assert(self.records().drop_last() =~= old(self).records());
        proof {
            lemma_constants();
            if exact_quotient(*ar, Scalar::one(), buf@[13]) {
                lemma_divided(1real, num(buf@[13]));
            }
        }
        ATOM_PACK_SIZE
    }

    /// Appends an atom of type 0 at rest.
    pub fn push_test_atom<F: Fn(Op, Scalar, Scalar, Scalar) -> Scalar>(
        &mut self,
        tag: u32,
        pos: Vec3,
        radius: Scalar,
        mass: Scalar,
        ar: &F,
    )
        requires
            is_arithmetic(*ar),
            old(self).wf(),
        ensures
            final(self).wf(),
            final(self).same_header(old(self)),
            final(self).records().len() == old(self).records().len() + 1,
            final(self).records().drop_last() == old(self).records(),
            ({
                let rec = final(self).records().last();
                &&& rec.tag == tag
                &&& rec.atom_type == 0
                &&& rec.origin_index == 0
                &&& !rec.is_ghost
                &&& rec.pos == pos
                &&& all_zero(rec.vel)
                &&& all_zero(rec.force)
                &&& rec.cutoff_radius == radius
                &&& rec.mass == mass
                &&& rec.inv_mass == quotient(*ar, Scalar::one(), mass)
                &&& exact_quotient(*ar, Scalar::one(), mass) ==> num(rec.inv_mass) * num(mass)
                    == 1real
                &&& rec.image[0] == 0 && rec.image[1] == 0 && rec.image[2] == 0
            }),
    {
        let zero: Scalar = Scalar::zero();
        self.tag.push(tag);
        self.atom_type.push(0);
        self.origin_index.push(0);
        self.pos.push(pos);
        self.vel.push([zero, zero, zero]);
        self.force.push([zero, zero, zero]);
        self.mass.push(mass);
        self.inv_mass.push(over(ar, Scalar::one(), mass));
        self.cutoff_radius.push(radius);
        self.image.push([0, 0, 0]);
        self.is_ghost.push(false);
        assert(self.records().drop_last() =~= old(self).records());
        proof {
            lemma_constants();
            if exact_quotient(*ar, Scalar::one(), mass) {
                lemma_divided(1real, num(mass));
            }
        }
    }
}

/// All three numbers are zero.
pub open spec fn all_zero(a: Vec3) -> bool {
    a[0].bits == 0 && a[1].bits == 0 && a[2].bits == 0
}

/// The offset zero.
pub open spec fn no_offset() -> Vec3 {
    [Scalar::zero(), Scalar::zero(), Scalar::zero()]
}

/// What `pack_exchange` writes for atom `i`.
pub open spec fn exchange_words<F: Fn(Op, Scalar, Scalar, Scalar) -> Scalar>(atoms: Atom, i: int, ar: F) -> Seq<
    Scalar,
> {
    atom_words(atoms.record(i), 0, moved(ar, atoms.pos@[i], no_offset()))
}

/// What `pack_border` writes for atom `i`.
pub open spec fn border_words<F: Fn(Op, Scalar, Scalar, Scalar) -> Scalar>(
    atoms: Atom,
    i: int,
    by: Vec3,
    ar: F,
) -> Seq<Scalar> {
    atom_words(atoms.record(i), i, moved(ar, atoms.pos@[i], by))
}

impl Default for Atom {
    fn default() -> (r: Atom)
        ensures
            r.wf(),
            r.records().len() == 0,
            r.natoms == 0,
            r.nlocal == 0,
            r.nghost == 0,
            r.ntypes == 1,
            r.dt == Scalar::one(),
    {
        Atom::new()
    }
}

/// Twice the kinetic energy of the first `n` atoms, those outside the mask
/// left out.
pub open spec fn kinetic_upto<F: Fn(Op, Scalar, Scalar, Scalar) -> Scalar>(
    ar: F,
    atoms: Atom,
    mask: Option<Seq<bool>>,
    n: int,
) -> Scalar
    decreases n,
{
    if n <= 0 {
        Scalar::zero()
    } else {
        let rest: Scalar = kinetic_upto(ar, atoms, mask, n - 1);
        if mask is Some && !mask->0[n - 1] {
            rest
        } else {
            let v: Vec3 = atoms.vel@[n - 1];
            sum(ar, rest, product(ar, atoms.mass@[n - 1], crate::vec3::dot_of(ar, v, v)))
        }
    }
}

/// The kinetic energy of the local atoms, or of those in the mask.
pub fn compute_ke<F: Fn(Op, Scalar, Scalar, Scalar) -> Scalar>(
    atoms: &Atom,
    mask: Option<&[bool]>,
    ar: &F,
) -> (r: Scalar)
    requires
        is_arithmetic(*ar),
        atoms.wf(),
        atoms.nlocal <= atoms.records().len(),
        mask matches Some(m) ==> atoms.nlocal <= m@.len(),
    ensures
        r == product(
            *ar,
            Scalar::half(),
            kinetic_upto(
                *ar,
                *atoms,
                match mask {
                    Some(m) => Some(m@),
                    None => None,
                },
                atoms.nlocal as int,
            ),
        ),
        ({
            let chosen = match mask {
                Some(m) => Some(m@),
                None => None,
            };
            let n = atoms.nlocal as int;
            exact_kinetic(*ar, *atoms, chosen, n) && exact_product(
                *ar,
                Scalar::half(),
                kinetic_upto(*ar, *atoms, chosen, n),
            ) ==> num(r) + num(r) == twice_energy(atoms.mass@, atoms.vel@, chosen, n)
        }),
{
    let nlocal: usize = atoms.nlocal as usize;
    let ghost chosen: Option<Seq<bool>> = match mask {
        Some(m) => Some(m@),
        None => None,
    };
    let mut ke: Scalar = Scalar::zero();
    let mut i: usize = 0;
    while i < nlocal
        invariant
            is_arithmetic(*ar),
            atoms.wf(),
            i <= nlocal <= atoms.records().len(),
            mask matches Some(m) ==> nlocal <= m@.len(),
            chosen == match mask {
                Some(m) => Some(m@),
                None => None,
            },
            ke == kinetic_upto(*ar, *atoms, chosen, i as int),
        decreases nlocal - i,
    {
        if crate::group::group_includes(mask, i) {
            let v: Vec3 = atoms.vel[i];
            ke = plus(ar, ke, times(ar, atoms.mass[i], crate::vec3::norm_sq(v, ar)));
        }
        i = i + 1;
    }
    proof {
        let n: int = nlocal as int;
        if exact_kinetic(*ar, *atoms, chosen, n) && exact_product(*ar, Scalar::half(), ke) {
            kinetic_sum_is_twice_the_energy(*ar, *atoms, chosen, n);
            lemma_constants();
            lemma_mul_add(num(ke), num(Scalar::half()), num(Scalar::half()));
            assert(1real * num(ke) == num(ke));
        }
    }
    times(ar, Scalar::half(), ke)
}

/// Drops every ghost, in the arrays and in all extension data.
pub fn remove_ghost_atoms<D: AtomData>(atoms: &mut Atom, registry: &mut AtomDataRegistry<D>)
    requires
        old(atoms).wf(),
        old(registry).wf(),
        old(atoms).nlocal <= old(atoms).records().len(),
        old(registry).parallel_to(old(atoms).records().len() as int),
    ensures
        final(atoms).wf(),
        final(registry).wf(),
        final(atoms).nghost == 0,
        final(atoms).nlocal == old(atoms).nlocal,
        final(atoms).natoms == old(atoms).natoms,
        final(atoms).ntypes == old(atoms).ntypes,
        final(atoms).dt == old(atoms).dt,
        final(atoms).records() == old(atoms).records().take(old(atoms).nlocal as int),
        final(registry).same_stores(old(registry)),
        final(registry).parallel_to(final(atoms).records().len() as int),
        forall|k: int|
            0 <= k < old(registry).stores@.len() ==> (
            #[trigger] final(registry).stores@[k]).data.rows()
                == old(registry).stores@[k].data.rows().take(old(atoms).nlocal as int),
{
    atoms.truncate_to_nlocal();
    registry.truncate_all(atoms.nlocal as usize);
    atoms.nghost = 0;
    assert(atoms.records() =~= old(atoms).records().take(old(atoms).nlocal as int));
}

/// Sets every force to zero and clears the accumulators of all extension data.
pub fn zero_all_forces<D: AtomData>(atoms: &mut Atom, registry: &mut AtomDataRegistry<D>)
    requires
        old(atoms).wf(),
        old(registry).wf(),
        old(registry).parallel_to(old(atoms).records().len() as int),
    ensures
        final(atoms).wf(),
        final(registry).wf(),
        final(atoms).same_header(old(atoms)),
        final(atoms).records().len() == old(atoms).records().len(),
        forall|i: int|
            0 <= i < old(atoms).records().len() ==> cleared_force(
                old(atoms).record(i),
                #[trigger] final(atoms).record(i),
            ),
        final(registry).same_stores(old(registry)),
        forall|k: int|
            0 <= k < old(registry).stores@.len() ==> (
            #[trigger] final(registry).stores@[k]).data.rows()
                == old(registry).stores@[k].data.rows().map_values(
                |row: Seq<Scalar>| D::zeroed(old(registry).stores@[k].data.shape(), row),
            ),
{
    let n: usize = atoms.len();
    let zero: Scalar = Scalar::zero();
    let none: Vec3 = [zero, zero, zero];
    let mut i: usize = 0;
    while i < n
        invariant
            i <= n == atoms.records().len(),
            atoms.wf(),
            atoms.same_header(old(atoms)),
            n == old(atoms).records().len(),
            all_zero(none),
            atoms.tag@ == old(atoms).tag@,
            atoms.atom_type@ == old(atoms).atom_type@,
            atoms.origin_index@ == old(atoms).origin_index@,
            atoms.is_ghost@ == old(atoms).is_ghost@,
            atoms.pos@ == old(atoms).pos@,
            atoms.vel@ == old(atoms).vel@,
            atoms.cutoff_radius@ == old(atoms).cutoff_radius@,
            atoms.mass@ == old(atoms).mass@,
            atoms.inv_mass@ == old(atoms).inv_mass@,
            atoms.image@ == old(atoms).image@,
            forall|k: int| 0 <= k < i ==> all_zero(#[trigger] atoms.force@[k]),
        decreases n - i,
    {
        atoms.force.set(i, none);
        i = i + 1;
    }
    registry.zero_all(n);
}

/// `new` is `rec` without its force.
pub open spec fn cleared_force(rec: Record, new: Record) -> bool {
    &&& all_zero(new.force)
    &&& new == Record { force: new.force, ..rec }
}

/// An atom that leaves its process arrives as it left: every field but the
/// origin index, the ghost flag and the inverse mass is read back from the
/// packed form, and the position is the packed one.
pub proof fn exchanged_atom_round_trip<F: Fn(Op, Scalar, Scalar, Scalar) -> Scalar>(
    atoms: Atom,
    i: int,
    ar: F,
    rest: Seq<Scalar>,
    rec: Record,
    is_ghost: bool,
    inv_mass: Scalar,
)
    requires
        0 <= i < atoms.records().len(),
        reads_as(rec, exchange_words(atoms, i, ar) + rest, is_ghost, inv_mass),
    ensures
        rec.tag == atoms.record(i).tag,
        rec.atom_type == atoms.record(i).atom_type,
        rec.origin_index == 0,
        rec.is_ghost == is_ghost,
        rec.cutoff_radius == atoms.record(i).cutoff_radius,
        rec.mass == atoms.record(i).mass,
        rec.inv_mass == inv_mass,
        forall|d: int| 0 <= d < 3 ==> #[trigger] rec.vel[d] == atoms.record(i).vel[d],
        forall|d: int| 0 <= d < 3 ==> #[trigger] rec.force[d] == atoms.record(i).force[d],
        forall|d: int| 0 <= d < 3 ==> #[trigger] rec.image[d] == atoms.record(i).image[d],
        forall|d: int|
            0 <= d < 3 ==> #[trigger] rec.pos[d] == sum(
                ar,
                atoms.record(i).pos[d],
                Scalar { bits: 0 },
            ),
{
    let from: Record = atoms.record(i);
    lemma_int_word(from.tag as int);
    lemma_int_word(from.atom_type as int);
    lemma_int_word(0);
    lemma_image_word(from.image[0]);
    lemma_image_word(from.image[1]);
    lemma_image_word(from.image[2]);
    let buf: Seq<Scalar> = exchange_words(atoms, i, ar) + rest;
    let words: Seq<Scalar> = exchange_words(atoms, i, ar);
    assert forall|k: int| 0 <= k < 17 implies buf[k] == #[trigger] words[k] by {}
    assert(words[0] == int_word(from.tag as int));
    assert(words[16] == int_word(from.image[2] as int));
}

/// A ghost that is read from what `pack_border` wrote is the moved image of its
/// owner and remembers where the owner stands.
pub proof fn ghost_is_an_image<F: Fn(Op, Scalar, Scalar, Scalar) -> Scalar>(
    atoms: Atom,
    i: int,
    by: Vec3,
    ar: F,
    rest: Seq<Scalar>,
    rec: Record,
    inv_mass: Scalar,
)
    requires
        0 <= i < atoms.records().len(),
        i <= i32::MAX,
        reads_as(rec, border_words(atoms, i, by, ar) + rest, true, inv_mass),
    ensures
        rec.origin_index == i,
        rec.is_ghost,
        rec.tag == atoms.record(i).tag,
        forall|d: int|
            0 <= d < 3 ==> #[trigger] rec.pos[d] == sum(ar, atoms.record(i).pos[d], by[d]),
        rec.atom_type == atoms.record(i).atom_type,
        rec.vel == atoms.record(i).vel,
        rec.force == atoms.record(i).force,
        rec.cutoff_radius == atoms.record(i).cutoff_radius,
        rec.mass == atoms.record(i).mass,
        rec.image == atoms.record(i).image,
{
    let words: Seq<Scalar> = border_words(atoms, i, by, ar);
    let buf: Seq<Scalar> = words + rest;
    let owner: Record = atoms.record(i);
    lemma_int_word(i);
    lemma_int_word(owner.tag as int);
    lemma_int_word(owner.atom_type as int);
    lemma_image_word(owner.image[0]);
    lemma_image_word(owner.image[1]);
    lemma_image_word(owner.image[2]);
    assert forall|k: int| 0 <= k < 17 implies buf[k] == #[trigger] words[k] by {}
    assert(words[0] == int_word(owner.tag as int));
    assert(words[1] == int_word(i));
    assert(words[3] == int_word(owner.atom_type as int));
    assert(words[7] == owner.vel[0] && words[8] == owner.vel[1] && words[9] == owner.vel[2]);
    assert(words[10] == owner.force[0] && words[11] == owner.force[1] && words[12] == owner.force[2]);
    assert(words[13] == owner.mass);
    assert(words[14] == int_word(owner.image[0] as int));
    assert(words[15] == int_word(owner.image[1] as int));
    assert(words[16] == int_word(owner.image[2] as int));
    assert(rec.vel =~= owner.vel);
    assert(rec.force =~= owner.force);
    assert(rec.image =~= owner.image);
}

/// What one process packs another unpacks: the new atom is the packed one, at the
/// place that it was moved to, and the atoms before it are left alone. What
/// `pack_exchange` writes names no origin and moves by nothing; what `pack_border`
/// writes names the index of the atom.
pub proof fn unpacked_atom_is_the_packed_one<F: Fn(Op, Scalar, Scalar, Scalar) -> Scalar>(
    ar: F,
    atoms: Atom,
    i: int,
    origin: int,
    by: Vec3,
    to: Atom,
    new: Atom,
    is_ghost: bool,
)
    requires
        0 <= i < atoms.records().len(),
        0 <= origin <= 2 * FRACTION,
        new.records().len() == to.records().len() + 1,
        new.records().drop_last() == to.records(),
        ({
            let words = atom_words(atoms.record(i), origin, moved(ar, atoms.pos@[i], by));
            reads_as(
                new.records().last(),
                words,
                is_ghost,
                quotient(ar, Scalar::one(), words[13]),
            )
        }),
    ensures
        ({
            let words = atom_words(atoms.record(i), origin, moved(ar, atoms.pos@[i], by));
            let (old_rec, rec) = (atoms.record(i), new.records().last());
            &&& words.len() == ATOM_PACK_SIZE
            &&& origin == 0 && by == no_offset() ==> words == exchange_words(atoms, i, ar)
            &&& origin == i ==> words == border_words(atoms, i, by, ar)
            &&& rec == Record {
                origin_index: clamp_int(origin, i32::MIN as int, i32::MAX as int) as i32,
                is_ghost,
                inv_mass: quotient(ar, Scalar::one(), old_rec.mass),
                pos: rec.pos,
                ..old_rec
            }
            &&& forall|d: int|
                0 <= d < 3 ==> {
                    &&& #[trigger] rec.pos[d] == sum(ar, old_rec.pos[d], by[d])
                    &&& exact_sum(ar, old_rec.pos[d], by[d]) ==> is_num(
                        rec.pos[d],
                        num(old_rec.pos[d]) + num(by[d]),
                    )
                }
        }),
        forall|k: int|
            0 <= k < to.records().len() ==> #[trigger] new.records()[k] == to.records()[k],
{
    let words: Seq<Scalar> = atom_words(atoms.record(i), origin, moved(ar, atoms.pos@[i], by));
    let owner: Record = atoms.record(i);
    let rec: Record = new.records().last();
    lemma_int_word(origin);
    lemma_int_word(owner.tag as int);
    lemma_int_word(owner.atom_type as int);
    lemma_image_word(owner.image[0]);
    lemma_image_word(owner.image[1]);
    lemma_image_word(owner.image[2]);
    assert(words[7] == owner.vel[0] && words[8] == owner.vel[1] && words[9] == owner.vel[2]);
    assert(words[10] == owner.force[0] && words[11] == owner.force[1] && words[12] == owner.force[2]);
    assert(rec.vel =~= owner.vel);
    assert(rec.force =~= owner.force);
    assert(rec.image =~= owner.image);
    assert forall|k: int| 0 <= k < to.records().len() implies #[trigger] new.records()[k]
        == to.records()[k] by {
        assert(new.records().drop_last()[k] == new.records()[k]);
    }
}

proof fn lemma_image_word(x: i32)
    ensures
        int_word(x as int).integer_part() == x,
{
    crate::scalar::lemma_signed_exists(x as int);
    lemma_integer_round_trip(int_word(x as int), x as int);
}

} // verus!

//! The exchange of atoms seen over all processes: no atom is lost and none is
//! doubled.

use crate::atom::{exchange_words, exchanged_atom_round_trip, Atom, Record, ATOM_PACK_SIZE};
use crate::atom_data::{AtomData, AtomDataRegistry, Entry};
use crate::domain::Domain;
use crate::exchange::{
    elsewhere, exchange_parts, handed_over_atoms_arrive, leaving_indices, lemma_leavers_at,
    on_side, sides, swept,
};
use crate::ghosts::{atom_start, received_atoms, row_in_message};
use crate::scalar::{quotient, sum, Op, Scalar, Vec3};
use crate::sweep::{leavers, leaving, lemma_sweep, sweep, sweep_conserves};
use crate::transport::{joined, matching};
use vstd::multiset::*;
use vstd::prelude::*;

verus! {

/// An atom with all that belongs to it wherever it is: what it is, how it moves,
/// and its extension data.
pub struct Body {
    pub tag: u32,
    pub atom_type: u32,
    pub pos: Vec3,
    pub vel: Vec3,
    pub force: Vec3,
    pub mass: Scalar,
    pub cutoff_radius: Scalar,
    pub image: [i32; 3],
    pub rows: Seq<Seq<Scalar>>,
}

/// Atom `i` with its extension data.
pub open spec fn body<D: AtomData>(atoms: Atom, registry: AtomDataRegistry<D>, i: int) -> Body {
    let r: Record = atoms.records()[i];
    Body {
        tag: r.tag,
        atom_type: r.atom_type,
        pos: r.pos,
        vel: r.vel,
        force: r.force,
        mass: r.mass,
        cutoff_radius: r.cutoff_radius,
        image: r.image,
        rows: Seq::new(
            registry.stores@.len(),
            |s: int| registry.stores@[s].data.rows()[i],
        ),
    }
}

/// All atoms of a process.
pub open spec fn bodies<D: AtomData>(atoms: Atom, registry: AtomDataRegistry<D>) -> Seq<Body> {
    Seq::new(atoms.records().len(), |i: int| body(atoms, registry, i))
}

/// Which elements a sweep leaves where does not depend on what they are.
proof fn lemma_sweep_indices<T>(s: Seq<T>, leave: Seq<bool>, k: int)
    requires
        0 <= k <= leave.len() <= s.len(),
    ensures
        ({
            let from = sweep(Seq::new(s.len(), |i: int| i), leave, k);
            &&& sweep(s, leave, k).len() == from.len()
            &&& forall|j: int|
                0 <= j < from.len() ==> 0 <= #[trigger] from[j] < s.len() && sweep(s, leave, k)[j]
                    == s[from[j]]
        }),
    decreases leave.len() - k,
{
    let all: Seq<int> = Seq::new(s.len(), |i: int| i);
    lemma_sweep(s, leave, k);
    lemma_sweep(all, leave, k);
    if k < leave.len() {
        lemma_sweep_indices(s, leave, k + 1);
        lemma_sweep(s, leave, k + 1);
        lemma_sweep(all, leave, k + 1);
    }
}

/// A sweep of the arrays and of all extension data is a sweep of the atoms.
proof fn lemma_swept_bodies<D: AtomData>(
    atoms: Atom,
    registry: AtomDataRegistry<D>,
    new: Atom,
    new_registry: AtomDataRegistry<D>,
    leave: Seq<bool>,
)
    requires
        registry.parallel_to(atoms.records().len() as int),
        new_registry.same_stores(&registry),
        leave.len() == atoms.records().len(),
        swept(atoms, registry, new, new_registry, leave),
    ensures
        bodies(new, new_registry) == sweep(bodies(atoms, registry), leave, 0),
{
    let old_bodies: Seq<Body> = bodies(atoms, registry);
    let from: Seq<int> = sweep(Seq::new(old_bodies.len(), |i: int| i), leave, 0);
    lemma_sweep_indices(old_bodies, leave, 0);
    lemma_sweep_indices(atoms.records(), leave, 0);
    assert forall|j: int| 0 <= j < from.len() implies #[trigger] bodies(new, new_registry)[j]
        == sweep(old_bodies, leave, 0)[j] by {
        let a: Body = body(new, new_registry, j);
        let b: Body = body(atoms, registry, from[j]);
        assert(new.records()[j] == atoms.records()[from[j]]);
        assert forall|s: int| 0 <= s < registry.stores@.len() implies a.rows[s] == b.rows[s] by {
            lemma_sweep_indices(registry.stores@[s].data.rows(), leave, 0);
            assert(new_registry.stores@[s].data.rows()[j]
                == registry.stores@[s].data.rows()[from[j]]);
        }
        assert(a.rows =~= b.rows);
    }
    assert(bodies(new, new_registry) =~= sweep(old_bodies, leave, 0));
}

/// A position is not changed by adding nothing to it.
pub open spec fn zero_adds_nothing<F: Fn(Op, Scalar, Scalar, Scalar) -> Scalar>(
    ar: F,
    atoms: Atom,
) -> bool {
    forall|i: int, d: int|
        0 <= i < atoms.records().len() && 0 <= d < 3 ==> sum(
            ar,
            #[trigger] atoms.pos@[i][d],
            Scalar { bits: 0 },
        ) == atoms.pos@[i][d]
}

proof fn lemma_start_is_natural<D: AtomData>(stores: Seq<Entry<D>>, data: Seq<Scalar>, k: int)
    ensures
        atom_start(stores, data, k) >= 0,
    decreases k,
{
    if k > 0 {
        lemma_start_is_natural(stores, data, k - 1);
    }
}

/// An atom that is handed over returns as it was: also its position is the same,
/// where adding nothing does not change it.
proof fn lemma_body_arrives<D: AtomData, F: Fn(Op, Scalar, Scalar, Scalar) -> Scalar>(
    ar: F,
    atoms: Atom,
    registry: AtomDataRegistry<D>,
    leave: Seq<bool>,
    to: Atom,
    to_registry: AtomDataRegistry<D>,
    new: Atom,
    new_registry: AtomDataRegistry<D>,
    c: int,
)
    requires
        atoms.wf(),
        registry.wf(),
        registry.parallel_to(atoms.records().len() as int),
        leave.len() == atoms.records().len(),
        matching(registry.stores@, to_registry.stores@),
        to_registry.parallel_to(to.records().len() as int),
        zero_adds_nothing(ar, atoms),
        received_atoms(
            to,
            new,
            to_registry,
            new_registry,
            joined(leavers(exchange_parts(ar, atoms, registry.stores@), leave, 0)),
            leaving(leave, 0) as int,
            false,
            ar,
        ),
        0 <= c < leaving(leave, 0),
    ensures
        bodies(new, new_registry)[to.records().len() + c] == leavers(
            bodies(atoms, registry),
            leave,
            0,
        )[c],
{
    let stores: Seq<Entry<D>> = to_registry.stores@;
    let data: Seq<Scalar> = joined(
        leavers(exchange_parts(ar, atoms, registry.stores@), leave, 0),
    );
    let first: int = to.records().len() as int;
    let from: int = leaving_indices(leave, 0)[c];
    handed_over_atoms_arrive(ar, atoms, registry, leave, stores);
    lemma_leavers_at(bodies(atoms, registry), leave, 0, c);
    lemma_start_is_natural(stores, data, c);
    assert(atom_start(stores, data, c) + ATOM_PACK_SIZE <= data.len());
    let at: Seq<Scalar> = data.skip(atom_start(stores, data, c));
    let words: Seq<Scalar> = exchange_words(atoms, from, ar);
    let rest: Seq<Scalar> = at.skip(17);
    assert(at.take(17) == words);
    assert(words.len() == 17);
    assert(at =~= words + rest) by {
        assert(at.take(17) + at.skip(17) =~= at);
    }
    let rec: Record = new.records()[first + c];
    let inv: Scalar = quotient(ar, Scalar::one(), data[atom_start(stores, data, c) + 13]);
    exchanged_atom_round_trip(atoms, from, ar, rest, rec, false, inv);
    let a: Body = body(new, new_registry, first + c);
    let b: Body = body(atoms, registry, from);
    let was: Record = atoms.records()[from];
    assert(was == atoms.record(from));
    assert(a.pos =~= b.pos) by {
        assert forall|d: int| 0 <= d < 3 implies #[trigger] a.pos[d] == b.pos[d] by {
            assert(sum(ar, atoms.pos@[from][d], Scalar { bits: 0 }) == atoms.pos@[from][d]);
        }
    }
    assert(a.vel =~= b.vel);
    assert(a.force =~= b.force);
    assert(a.image =~= b.image);
    assert forall|s: int| 0 <= s < stores.len() implies a.rows[s] == b.rows[s] by {
        assert(row_in_message(stores, data, c, s) == registry.stores@[s].data.rows()[from]);
        assert(new_registry.stores@[s].data.rows()[first + c] == row_in_message(
            stores,
            data,
            c,
            s,
        ));
    }
    assert(a.rows =~= b.rows);
}

/// What a process receives is what its neighbour sent, behind what it has.
proof fn lemma_bodies_arrive<D: AtomData, F: Fn(Op, Scalar, Scalar, Scalar) -> Scalar>(
    ar: F,
    atoms: Atom,
    registry: AtomDataRegistry<D>,
    leave: Seq<bool>,
    to: Atom,
    to_registry: AtomDataRegistry<D>,
    new: Atom,
    new_registry: AtomDataRegistry<D>,
)
    requires
        atoms.wf(),
        registry.wf(),
        registry.parallel_to(atoms.records().len() as int),
        leave.len() == atoms.records().len(),
        matching(registry.stores@, to_registry.stores@),
        to_registry.parallel_to(to.records().len() as int),
        zero_adds_nothing(ar, atoms),
        received_atoms(
            to,
            new,
            to_registry,
            new_registry,
            joined(leavers(exchange_parts(ar, atoms, registry.stores@), leave, 0)),
            leaving(leave, 0) as int,
            false,
            ar,
        ),
    ensures
        bodies(new, new_registry) == bodies(to, to_registry) + leavers(
            bodies(atoms, registry),
            leave,
            0,
        ),
{
    let first: int = to.records().len() as int;
    let sent: Seq<Body> = leavers(bodies(atoms, registry), leave, 0);
    lemma_leavers_at(bodies(atoms, registry), leave, 0, 0);
    assert forall|i: int| 0 <= i < new.records().len() implies #[trigger] bodies(
        new,
        new_registry,
    )[i] == (bodies(to, to_registry) + sent)[i] by {
        if i < first {
            let a: Body = body(new, new_registry, i);
            let b: Body = body(to, to_registry, i);
            assert(new.records().take(first)[i] == to.records()[i]);
            assert forall|s: int| 0 <= s < to_registry.stores@.len() implies a.rows[s]
                == b.rows[s] by {
                assert(new_registry.stores@[s].data.rows()[i]
                    == to_registry.stores@[s].data.rows()[i]);
            }
            assert(a.rows =~= b.rows);
        } else {
            lemma_body_arrives(
                ar,
                atoms,
                registry,
                leave,
                to,
                to_registry,
                new,
                new_registry,
                i - first,
            );
        }
    }
    assert(bodies(new, new_registry) =~= bodies(to, to_registry) + sent);
}

/// The parts of `n` processes together.
pub open spec fn total(part: spec_fn(int) -> Multiset<Body>, n: int) -> Multiset<Body>
    decreases n,
{
    if n <= 0 {
        Multiset::empty()
    } else {
        total(part, n - 1).add(part(n - 1))
    }
}

proof fn lemma_total_first(part: spec_fn(int) -> Multiset<Body>, n: int)
    requires
        n > 0,
    ensures
        total(part, n) =~= part(0).add(total(|p: int| part(p + 1), n - 1)),
    decreases n,
{
    if n > 1 {
        lemma_total_first(part, n - 1);
        assert(total(|p: int| part(p + 1), n - 1) == total(|p: int| part(p + 1), n - 2).add(
            part(n - 1),
        ));
    } else {
        assert(total(part, 0) =~= Multiset::empty());
        assert(total(|p: int| part(p + 1), 0) =~= Multiset::empty());
    }
}

pub proof fn lemma_total_alike(
    a: spec_fn(int) -> Multiset<Body>,
    b: spec_fn(int) -> Multiset<Body>,
    n: int,
)
    requires
        forall|p: int| 0 <= p < n ==> a(p) == #[trigger] b(p),
    ensures
        total(a, n) == total(b, n),
    decreases n,
{
    if n > 0 {
        lemma_total_alike(a, b, n - 1);
        assert(a(n - 1) == b(n - 1));
    }
}

pub proof fn lemma_total_sum(
    a: spec_fn(int) -> Multiset<Body>,
    b: spec_fn(int) -> Multiset<Body>,
    n: int,
)
    ensures
        total(|p: int| a(p).add(b(p)), n) =~= total(a, n).add(total(b, n)),
    decreases n,
{
    if n > 0 {
        lemma_total_sum(a, b, n - 1);
    }
}

/// The process above `p` in a row of `n`: behind the last comes the first where
/// the axis is periodic, and none where it is not.
pub open spec fn above(p: int, n: int, periodic: bool) -> Option<int> {
    if p + 1 < n {
        Some(p + 1)
    } else if periodic {
        Some(0)
    } else {
        None
    }
}

/// The process below `p` in a row of `n`.
pub open spec fn under(p: int, n: int, periodic: bool) -> Option<int> {
    if p > 0 {
        Some(p - 1)
    } else if periodic {
        Some(n - 1)
    } else {
        None
    }
}

/// What `from` has a part of, nothing where there is none.
pub open spec fn part_of(part: spec_fn(int) -> Multiset<Body>, from: Option<int>) -> Multiset<Body> {
    match from {
        Some(q) => part(q),
        None => Multiset::empty(),
    }
}

/// Parts that all move on by one process are the same parts.
proof fn lemma_total_moves(part: spec_fn(int) -> Multiset<Body>, n: int, periodic: bool)
    requires
        n > 0,
    ensures
        periodic || part(0) =~= Multiset::empty() ==> total(
            |p: int| part_of(part, above(p, n, periodic)),
            n,
        ) =~= total(part, n),
        periodic || part(n - 1) =~= Multiset::empty() ==> total(
            |p: int| part_of(part, under(p, n, periodic)),
            n,
        ) =~= total(part, n),
{
    let up: spec_fn(int) -> Multiset<Body> = |p: int| part_of(part, above(p, n, periodic));
    let down: spec_fn(int) -> Multiset<Body> = |p: int| part_of(part, under(p, n, periodic));
    lemma_total_first(part, n);
    lemma_total_alike(up, |p: int| part(p + 1), n - 1);
    assert(total(up, n) == total(up, n - 1).add(up(n - 1)));
    lemma_total_first(down, n);
    lemma_total_alike(|p: int| down(p + 1), part, n - 1);
    assert(total(part, n) == total(part, n - 1).add(part(n - 1)));
}

/// One process before, during and after the exchange along an axis.
pub struct Stages<D: AtomData> {
    pub domain: Domain,
    pub before: (Atom, AtomDataRegistry<D>),
    /// The atoms that belong elsewhere are gone.
    pub swept: (Atom, AtomDataRegistry<D>),
    /// The atoms from above have arrived.
    pub half: (Atom, AtomDataRegistry<D>),
    /// The atoms from below have arrived too.
    pub after: (Atom, AtomDataRegistry<D>),
}

impl<D: AtomData> Stages<D> {
    /// Where the atoms belong along the axis.
    pub open spec fn places<F: Fn(Op, Scalar, Scalar, Scalar) -> Scalar>(&self, ar: F, dim: int) -> Seq<
        int,
    > {
        sides(ar, self.before.0, self.domain, dim)
    }

    /// The atoms that belong to side `s`, packed.
    pub open spec fn message<F: Fn(Op, Scalar, Scalar, Scalar) -> Scalar>(
        &self,
        ar: F,
        dim: int,
        s: int,
    ) -> Seq<Scalar> {
        joined(
            leavers(
                exchange_parts(ar, self.before.0, self.before.1.stores@),
                on_side(self.places(ar, dim), s),
                0,
            ),
        )
    }

    /// The atoms that belong to side `s`.
    pub open spec fn leaves_to<F: Fn(Op, Scalar, Scalar, Scalar) -> Scalar>(
        &self,
        ar: F,
        dim: int,
        s: int,
    ) -> Seq<Body> {
        leavers(bodies(self.before.0, self.before.1), on_side(self.places(ar, dim), s), 0)
    }

    /// The process is ready for the exchange.
    pub open spec fn ready<F: Fn(Op, Scalar, Scalar, Scalar) -> Scalar>(&self, ar: F) -> bool {
        &&& self.before.0.wf()
        &&& self.before.1.wf()
        &&& self.before.1.parallel_to(self.before.0.records().len() as int)
        &&& zero_adds_nothing(ar, self.before.0)
    }

    /// The process did its part: it gave away what belongs elsewhere and took what
    /// its neighbours gave, from above first.
    pub open spec fn exchanged<F: Fn(Op, Scalar, Scalar, Scalar) -> Scalar>(
        &self,
        ar: F,
        dim: int,
        upper: Option<Stages<D>>,
        lower: Option<Stages<D>>,
    ) -> bool {
        &&& swept(
            self.before.0,
            self.before.1,
            self.swept.0,
            self.swept.1,
            elsewhere(self.places(ar, dim)),
        )
        &&& self.swept.1.same_stores(&self.before.1)
        &&& self.swept.1.parallel_to(self.swept.0.records().len() as int)
        &&& match upper {
            Some(q) => took(ar, dim, q, -1, self.swept, self.half),
            None => self.half == self.swept,
        }
        &&& match lower {
            Some(q) => took(ar, dim, q, 1, self.half, self.after),
            None => self.after == self.half,
        }
    }
}

/// What process `q` had for side `s` has arrived.
pub open spec fn took<D: AtomData, F: Fn(Op, Scalar, Scalar, Scalar) -> Scalar>(
    ar: F,
    dim: int,
    q: Stages<D>,
    s: int,
    before: (Atom, AtomDataRegistry<D>),
    after: (Atom, AtomDataRegistry<D>),
) -> bool {
    received_atoms(
        before.0,
        after.0,
        before.1,
        after.1,
        q.message(ar, dim, s),
        leaving(on_side(q.places(ar, dim), s), 0) as int,
        false,
        ar,
    )
}

/// What leaves leaves to one side or the other.
proof fn lemma_sides_split<T>(s: Seq<T>, places: Seq<int>, k: int)
    requires
        0 <= k <= places.len() == s.len(),
        forall|i: int| 0 <= i < places.len() ==> -1 <= #[trigger] places[i] <= 1,
    ensures
        leavers(s, elsewhere(places), k).to_multiset() =~= leavers(
            s,
            on_side(places, -1),
            k,
        ).to_multiset().add(leavers(s, on_side(places, 1), k).to_multiset()),
    decreases places.len() - k,
{
    broadcast use vstd::seq_lib::group_to_multiset_ensures;

    if k < places.len() {
        lemma_sides_split(s, places, k + 1);
        assert(-1 <= places[k] <= 1);
    }
}

/// The atoms that one process has in the end: those that stayed, those that came from
/// above and those that came from below.
pub open spec fn gathered<D: AtomData, F: Fn(Op, Scalar, Scalar, Scalar) -> Scalar>(
    ar: F,
    dim: int,
    me: Stages<D>,
    upper: Option<Stages<D>>,
    lower: Option<Stages<D>>,
) -> Seq<Body> {
    let stayed = sweep(bodies(me.before.0, me.before.1), elsewhere(me.places(ar, dim)), 0);
    let from_above = match upper {
        Some(q) => q.leaves_to(ar, dim, -1),
        None => Seq::empty(),
    };
    let from_below = match lower {
        Some(q) => q.leaves_to(ar, dim, 1),
        None => Seq::empty(),
    };
    stayed + from_above + from_below
}

pub proof fn lemma_gathered<D: AtomData, F: Fn(Op, Scalar, Scalar, Scalar) -> Scalar>(
    ar: F,
    dim: int,
    me: Stages<D>,
    upper: Option<Stages<D>>,
    lower: Option<Stages<D>>,
)
    requires
        me.ready(ar),
        upper matches Some(q) ==> q.ready(ar) && matching(q.before.1.stores@, me.before.1.stores@),
        lower matches Some(q) ==> q.ready(ar) && matching(q.before.1.stores@, me.before.1.stores@),
        me.exchanged(ar, dim, upper, lower),
    ensures
        bodies(me.after.0, me.after.1) == gathered(ar, dim, me, upper, lower),
        bodies(me.swept.0, me.swept.1) == sweep(
            bodies(me.before.0, me.before.1),
            elsewhere(me.places(ar, dim)),
            0,
        ),
{
    let places: Seq<int> = me.places(ar, dim);
    let stayed: Seq<Body> = bodies(me.swept.0, me.swept.1);
    let none: Seq<Body> = Seq::empty();
    lemma_swept_bodies(me.before.0, me.before.1, me.swept.0, me.swept.1, elsewhere(places));
    assert forall|s: int| 0 <= s < me.before.1.stores@.len() implies (
    #[trigger] me.swept.1.stores@[s]).data.shape() == me.before.1.stores@[s].data.shape() by {}
    match upper {
        Some(q) => {
            assert(matching(q.before.1.stores@, me.swept.1.stores@));
            lemma_bodies_arrive(
                ar,
                q.before.0,
                q.before.1,
                on_side(q.places(ar, dim), -1),
                me.swept.0,
                me.swept.1,
                me.half.0,
                me.half.1,
            );
        },
        None => {
            assert(stayed + none =~= stayed);
        },
    }
    let half: Seq<Body> = bodies(me.half.0, me.half.1);
    match lower {
        Some(q) => {
            assert forall|s: int| 0 <= s < me.half.1.stores@.len() implies (
            #[trigger] me.half.1.stores@[s]).data.shape() == me.swept.1.stores@[s].data.shape() by {}
            assert(matching(q.before.1.stores@, me.half.1.stores@));
            lemma_bodies_arrive(
                ar,
                q.before.0,
                q.before.1,
                on_side(q.places(ar, dim), 1),
                me.half.0,
                me.half.1,
                me.after.0,
                me.after.1,
            );
        },
        None => {
            assert(half + none =~= half);
        },
    }
}

/// What one process has in the end: what stayed, what came from above and what
/// came from below.
proof fn lemma_process_total<D: AtomData, F: Fn(Op, Scalar, Scalar, Scalar) -> Scalar>(
    ar: F,
    dim: int,
    me: Stages<D>,
    upper: Option<Stages<D>>,
    lower: Option<Stages<D>>,
)
    requires
        me.ready(ar),
        upper matches Some(q) ==> q.ready(ar) && matching(q.before.1.stores@, me.before.1.stores@),
        lower matches Some(q) ==> q.ready(ar) && matching(q.before.1.stores@, me.before.1.stores@),
        me.exchanged(ar, dim, upper, lower),
    ensures
        ({
            let stayed = bodies(me.swept.0, me.swept.1).to_multiset();
            let from_above = match upper {
                Some(q) => q.leaves_to(ar, dim, -1).to_multiset(),
                None => Multiset::empty(),
            };
            let from_below = match lower {
                Some(q) => q.leaves_to(ar, dim, 1).to_multiset(),
                None => Multiset::empty(),
            };
            bodies(me.after.0, me.after.1).to_multiset() =~= stayed.add(from_above).add(from_below)
        }),
        bodies(me.before.0, me.before.1).to_multiset() =~= bodies(
            me.swept.0,
            me.swept.1,
        ).to_multiset().add(me.leaves_to(ar, dim, -1).to_multiset()).add(
            me.leaves_to(ar, dim, 1).to_multiset(),
        ),
{
    let places: Seq<int> = me.places(ar, dim);
    let all: Seq<Body> = bodies(me.before.0, me.before.1);
    let stayed: Seq<Body> = bodies(me.swept.0, me.swept.1);
    lemma_gathered(ar, dim, me, upper, lower);
    sweep_conserves(all, elsewhere(places), 0);
    lemma_sides_split(all, places, 0);
    let from_above: Seq<Body> = match upper {
        Some(q) => q.leaves_to(ar, dim, -1),
        None => Seq::empty(),
    };
    let from_below: Seq<Body> = match lower {
        Some(q) => q.leaves_to(ar, dim, 1),
        None => Seq::empty(),
    };
    lemma_empty_part(Seq::empty());
    vstd::seq_lib::lemma_multiset_commutative(stayed, from_above);
    vstd::seq_lib::lemma_multiset_commutative(stayed + from_above, from_below);
}

/// None of the atoms is a ghost.
pub open spec fn no_ghosts(atoms: Atom) -> bool {
    forall|i: int| 0 <= i < atoms.records().len() ==> !(#[trigger] atoms.records()[i]).is_ghost
}

/// Where no atom is a ghost, none is after an exchange: what arrives is local.
pub proof fn exchanged_atoms_are_no_ghosts<
    D: AtomData,
    F: Fn(Op, Scalar, Scalar, Scalar) -> Scalar,
>(
    ar: F,
    dim: int,
    me: Stages<D>,
    upper: Option<Stages<D>>,
    lower: Option<Stages<D>>,
)
    requires
        me.exchanged(ar, dim, upper, lower),
        no_ghosts(me.before.0),
    ensures
        no_ghosts(me.after.0),
{
    let leave: Seq<bool> = elsewhere(me.places(ar, dim));
    lemma_sweep_indices(me.before.0.records(), leave, 0);
    let from: Seq<int> = sweep(
        Seq::new(me.before.0.records().len(), |i: int| i),
        leave,
        0,
    );
    assert forall|i: int| 0 <= i < me.swept.0.records().len() implies !(
    #[trigger] me.swept.0.records()[i]).is_ghost by {
        assert(me.swept.0.records()[i] == me.before.0.records()[from[i]]);
    }
    match upper {
        Some(q) => lemma_took_no_ghosts(ar, dim, q, -1, me.swept, me.half),
        None => {},
    }
    match lower {
        Some(q) => lemma_took_no_ghosts(ar, dim, q, 1, me.half, me.after),
        None => {},
    }
}

proof fn lemma_took_no_ghosts<D: AtomData, F: Fn(Op, Scalar, Scalar, Scalar) -> Scalar>(
    ar: F,
    dim: int,
    q: Stages<D>,
    s: int,
    before: (Atom, AtomDataRegistry<D>),
    after: (Atom, AtomDataRegistry<D>),
)
    requires
        took(ar, dim, q, s, before, after),
        no_ghosts(before.0),
    ensures
        no_ghosts(after.0),
{
    let first: int = before.0.records().len() as int;
    assert forall|i: int| 0 <= i < after.0.records().len() implies !(
    #[trigger] after.0.records()[i]).is_ghost by {
        if i < first {
            assert(after.0.records().take(first)[i] == before.0.records()[i]);
        } else {
            assert(!after.0.records()[first + (i - first)].is_ghost);
        }
    }
}

/// The process that is named, if one is.
pub open spec fn stages_of<D: AtomData>(row: Seq<Stages<D>>, p: Option<int>) -> Option<Stages<D>> {
    match p {
        Some(q) => Some(row[q]),
        None => None,
    }
}

/// An exchange loses no atom and doubles none. Of a row of processes along an axis
/// each gives the atoms that belong elsewhere to its neighbours and takes what they
/// give: together they have afterwards the atoms, with all their extension data,
/// that they had before. Where the axis is not periodic, nothing may leave the row
/// at its ends.
pub proof fn exchange_conserves_atoms<D: AtomData, F: Fn(Op, Scalar, Scalar, Scalar) -> Scalar>(
    ar: F,
    dim: int,
    row: Seq<Stages<D>>,
    periodic: bool,
)
    requires
        row.len() > 0,
        forall|p: int| 0 <= p < row.len() ==> (#[trigger] row[p]).ready(ar),
        forall|p: int, q: int|
            0 <= p < row.len() && 0 <= q < row.len() ==> matching(
                (#[trigger] row[q]).before.1.stores@,
                (#[trigger] row[p]).before.1.stores@,
            ),
        forall|p: int|
            0 <= p < row.len() ==> (#[trigger] row[p]).exchanged(
                ar,
                dim,
                stages_of(row, above(p, row.len() as int, periodic)),
                stages_of(row, under(p, row.len() as int, periodic)),
            ),
        periodic || (row[0].leaves_to(ar, dim, -1).len() == 0 && row.last().leaves_to(
            ar,
            dim,
            1,
        ).len() == 0),
    ensures
        total(
            |p: int| bodies(row[p].after.0, row[p].after.1).to_multiset(),
            row.len() as int,
        ) == total(
            |p: int| bodies(row[p].before.0, row[p].before.1).to_multiset(),
            row.len() as int,
        ),
{
    let n: int = row.len() as int;
    let before: spec_fn(int) -> Multiset<Body> = |p: int|
        bodies(row[p].before.0, row[p].before.1).to_multiset();
    let after: spec_fn(int) -> Multiset<Body> = |p: int|
        bodies(row[p].after.0, row[p].after.1).to_multiset();
    let stayed: spec_fn(int) -> Multiset<Body> = |p: int|
        bodies(row[p].swept.0, row[p].swept.1).to_multiset();
    let down: spec_fn(int) -> Multiset<Body> = |p: int|
        row[p].leaves_to(ar, dim, -1).to_multiset();
    let up: spec_fn(int) -> Multiset<Body> = |p: int| row[p].leaves_to(ar, dim, 1).to_multiset();
    assert forall|p: int| 0 <= p < n implies #[trigger] after(p) == stayed(p).add(
        part_of(down, above(p, n, periodic)),
    ).add(part_of(up, under(p, n, periodic))) by {
        lemma_process_of_row(ar, dim, row, periodic, p);
    }
    assert forall|p: int| 0 <= p < n implies #[trigger] before(p) == stayed(p).add(down(p)).add(
        up(p),
    ) by {
        lemma_process_of_row(ar, dim, row, periodic, p);
    }
    if !periodic {
        lemma_empty_part(row[0].leaves_to(ar, dim, -1));
        lemma_empty_part(row.last().leaves_to(ar, dim, 1));
    }
    lemma_row_conserves(before, after, stayed, down, up, n, periodic);
}

proof fn lemma_empty_part(s: Seq<Body>)
    requires
        s.len() == 0,
    ensures
        s.to_multiset() == Multiset::<Body>::empty(),
{
    broadcast use vstd::seq_lib::group_to_multiset_ensures;

    assert(s.to_multiset() =~= Multiset::<Body>::empty());
}

proof fn lemma_process_of_row<D: AtomData, F: Fn(Op, Scalar, Scalar, Scalar) -> Scalar>(
    ar: F,
    dim: int,
    row: Seq<Stages<D>>,
    periodic: bool,
    p: int,
)
    requires
        0 <= p < row.len(),
        forall|p: int| 0 <= p < row.len() ==> (#[trigger] row[p]).ready(ar),
        forall|p: int, q: int|
            0 <= p < row.len() && 0 <= q < row.len() ==> matching(
                (#[trigger] row[q]).before.1.stores@,
                (#[trigger] row[p]).before.1.stores@,
            ),
        row[p].exchanged(
            ar,
            dim,
            stages_of(row, above(p, row.len() as int, periodic)),
            stages_of(row, under(p, row.len() as int, periodic)),
        ),
    ensures
        bodies(row[p].after.0, row[p].after.1).to_multiset() == bodies(
            row[p].swept.0,
            row[p].swept.1,
        ).to_multiset().add(
            part_of(
                |p: int| row[p].leaves_to(ar, dim, -1).to_multiset(),
                above(p, row.len() as int, periodic),
            ),
        ).add(
            part_of(
                |p: int| row[p].leaves_to(ar, dim, 1).to_multiset(),
                under(p, row.len() as int, periodic),
            ),
        ),
        bodies(row[p].before.0, row[p].before.1).to_multiset() == bodies(
            row[p].swept.0,
            row[p].swept.1,
        ).to_multiset().add(row[p].leaves_to(ar, dim, -1).to_multiset()).add(
            row[p].leaves_to(ar, dim, 1).to_multiset(),
        ),
{
    assert(row[p].ready(ar));
    lemma_process_total(
        ar,
        dim,
        row[p],
        stages_of(row, above(p, row.len() as int, periodic)),
        stages_of(row, under(p, row.len() as int, periodic)),
    );
}

proof fn lemma_row_conserves(
    before: spec_fn(int) -> Multiset<Body>,
    after: spec_fn(int) -> Multiset<Body>,
    stayed: spec_fn(int) -> Multiset<Body>,
    down: spec_fn(int) -> Multiset<Body>,
    up: spec_fn(int) -> Multiset<Body>,
    n: int,
    periodic: bool,
)
    requires
        n > 0,
        forall|p: int|
            0 <= p < n ==> #[trigger] after(p) == stayed(p).add(
                part_of(down, above(p, n, periodic)),
            ).add(part_of(up, under(p, n, periodic))),
        forall|p: int| 0 <= p < n ==> #[trigger] before(p) == stayed(p).add(down(p)).add(up(p)),
        periodic || (down(0) == Multiset::<Body>::empty() && up(n - 1)
            == Multiset::<Body>::empty()),
    ensures
        total(after, n) == total(before, n),
{
    let came_down: spec_fn(int) -> Multiset<Body> = |p: int| part_of(down, above(p, n, periodic));
    let came_up: spec_fn(int) -> Multiset<Body> = |p: int| part_of(up, under(p, n, periodic));
    let kept: spec_fn(int) -> Multiset<Body> = |p: int| stayed(p).add(came_down(p));
    let gave: spec_fn(int) -> Multiset<Body> = |p: int| stayed(p).add(down(p));
    lemma_total_alike(|p: int| kept(p).add(came_up(p)), after, n);
    lemma_total_alike(|p: int| gave(p).add(up(p)), before, n);
    lemma_total_sum(kept, came_up, n);
    lemma_total_sum(stayed, came_down, n);
    lemma_total_sum(gave, up, n);
    lemma_total_sum(stayed, down, n);
    lemma_total_moves(down, n, periodic);
    lemma_total_moves(up, n, periodic);
    assert(total(after, n) =~= total(stayed, n).add(total(down, n)).add(total(up, n)));
}

} // verus!

//! Pinning groups of atoms in place.

use crate::atom::{Atom, Record};
use crate::exact::num;
use crate::group::{first_place, lemma_first_place, models, Group, GroupRegistry};
use crate::scalar::{Scalar, Vec3};
use std::collections::HashMap;
use vstd::prelude::*;

verus! {

broadcast use vstd::std_specs::hash::group_hash_axioms;

/// A group to be pinned.
pub struct PinDef {
    pub group: String,
}

/// The positions at which the atoms of a group are held, by tag.
pub struct PinnedGroup {
    pub group: String,
    pub positions: HashMap<u32, Vec3>,
}

/// The groups whose positions were captured.
pub struct PinState {
    pub captured: Vec<PinnedGroup>,
}

impl Default for PinState {
    fn default() -> (r: Self)
        ensures
            r.captured@.len() == 0,
    {
        PinState { captured: Vec::new() }
    }
}

/// The groups to be pinned.
pub struct PinRegistry {
    pub pins: Vec<PinDef>,
}

/// The captured groups, by name and positions.
pub open spec fn entries(captured: Seq<PinnedGroup>) -> Seq<(Seq<char>, Map<u32, Vec3>)> {
    Seq::new(captured.len(), |k: int| (captured[k].group@, captured[k].positions@))
}

/// The first place from `from` on with this name.
pub open spec fn entry_place(
    entries: Seq<(Seq<char>, Map<u32, Vec3>)>,
    name: Seq<char>,
    from: int,
) -> int
    decreases entries.len() - from,
{
    if from >= entries.len() || entries[from].0 == name {
        from
    } else {
        entry_place(entries, name, from + 1)
    }
}

/// The positions of the members among the first `n` atoms, by tag.
pub open spec fn positions_of(records: Seq<Record>, mask: Seq<bool>, n: int) -> Map<u32, Vec3>
    decreases n,
{
    if n <= 0 {
        Map::empty()
    } else if mask[n - 1] {
        positions_of(records, mask, n - 1).insert(records[n - 1].tag, records[n - 1].pos)
    } else {
        positions_of(records, mask, n - 1)
    }
}

/// The vector zero.
pub open spec fn origin() -> Vec3 {
    [Scalar::zero(), Scalar::zero(), Scalar::zero()]
}

/// An atom that is held: at rest, without force, and back in its place.
pub open spec fn held(rec: Record, pinned: Map<u32, Vec3>) -> Record {
    Record {
        pos: if pinned.dom().contains(rec.tag) {
            pinned[rec.tag]
        } else {
            rec.pos
        },
        vel: origin(),
        force: origin(),
        ..rec
    }
}

/// The atoms with the members among the first `n` held.
pub open spec fn all_held(records: Seq<Record>, mask: Seq<bool>, pinned: Map<u32, Vec3>, n: int) -> Seq<
    Record,
> {
    Seq::new(
        records.len(),
        |i: int|
            if i < n && mask[i] {
                held(records[i], pinned)
            } else {
                records[i]
            },
    )
}

/// The captured groups after one pin: a group is captured the first time it
/// has members.
pub open spec fn captured_after(
    records: Seq<Record>,
    entries: Seq<(Seq<char>, Map<u32, Vec3>)>,
    name: Seq<char>,
    mask: Seq<bool>,
    n: int,
) -> Seq<(Seq<char>, Map<u32, Vec3>)> {
    if mask.len() == 0 || entry_place(entries, name, 0) < entries.len() {
        entries
    } else {
        entries.push((name, positions_of(records, mask, n)))
    }
}

/// The atoms after one pin.
pub open spec fn records_after(
    records: Seq<Record>,
    entries: Seq<(Seq<char>, Map<u32, Vec3>)>,
    name: Seq<char>,
    mask: Seq<bool>,
    n: int,
) -> Seq<Record> {
    let now = captured_after(records, entries, name, mask, n);
    if mask.len() == 0 {
        records
    } else {
        all_held(records, mask, now[entry_place(now, name, 0)].1, n)
    }
}

/// The members of a named group.
pub open spec fn mask_of(groups: Seq<Group>, name: Seq<char>) -> Seq<bool> {
    groups[first_place(models(groups), name, 0)].mask@
}

/// Atoms and captured groups after the first `k` pins.
pub open spec fn pinned_upto(
    records: Seq<Record>,
    entries: Seq<(Seq<char>, Map<u32, Vec3>)>,
    pins: Seq<PinDef>,
    groups: Seq<Group>,
    n: int,
    k: int,
) -> (Seq<Record>, Seq<(Seq<char>, Map<u32, Vec3>)>)
    decreases k,
{
    if k <= 0 {
        (records, entries)
    } else {
        let (r, e) = pinned_upto(records, entries, pins, groups, n, k - 1);
        let name = pins[k - 1].group@;
        let mask = mask_of(groups, name);
        (records_after(r, e, name, mask, n), captured_after(r, e, name, mask, n))
    }
}

proof fn lemma_entry_place(
    entries: Seq<(Seq<char>, Map<u32, Vec3>)>,
    name: Seq<char>,
    from: int,
    p: int,
)
    requires
        0 <= from <= p <= entries.len(),
        p < entries.len() ==> entries[p].0 == name,
        forall|j: int| from <= j < p ==> (#[trigger] entries[j]).0 != name,
    ensures
        entry_place(entries, name, from) == p,
    decreases p - from,
{
    if from < p {
        assert(entries[from].0 != name);
        lemma_entry_place(entries, name, from + 1, p);
    }
}

/// Whether every group to be pinned exists.
pub fn setup_pins(registry: &PinRegistry, groups: &GroupRegistry) -> (r: bool)
    ensures
        r == forall|k: int|
            0 <= k < registry.pins@.len() ==> groups.has((#[trigger] registry.pins@[k]).group@),
{
    let mut k: usize = 0;
    while k < registry.pins.len()
        invariant
            k <= registry.pins@.len(),
            forall|j: int| 0 <= j < k ==> groups.has((#[trigger] registry.pins@[j]).group@),
        decreases registry.pins.len() - k,
    {
        if !groups.validate_name(registry.pins[k].group.as_str()) {
            assert(!groups.has(registry.pins@[k as int].group@));
            return false;
        }
        k = k + 1;
    }
    true
}

fn find_entry(state: &PinState, name: &String) -> (r: usize)
    ensures
        r == entry_place(entries(state.captured@), name@, 0),
        r <= state.captured@.len(),
{
    let mut k: usize = 0;
    while k < state.captured.len()
        invariant
            k <= state.captured@.len(),
            forall|j: int| 0 <= j < k ==> (#[trigger] state.captured@[j]).group@ != name@,
        decreases state.captured.len() - k,
    {
        if state.captured[k].group == *name {
            proof {
                let e: Seq<(Seq<char>, Map<u32, Vec3>)> = entries(state.captured@);
                assert forall|j: int| 0 <= j < k implies (#[trigger] e[j]).0 != name@ by {
                    assert(state.captured@[j].group@ != name@);
                }
                lemma_entry_place(e, name@, 0, k as int);
            }
            return k;
        }
        k = k + 1;
    }
    proof {
        let e: Seq<(Seq<char>, Map<u32, Vec3>)> = entries(state.captured@);
        assert forall|j: int| 0 <= j < k implies (#[trigger] e[j]).0 != name@ by {
            assert(state.captured@[j].group@ != name@);
        }
        lemma_entry_place(e, name@, 0, k as int);
    }
    k
}

fn capture(atoms: &Atom, mask: &[bool], n: usize) -> (r: HashMap<u32, Vec3>)
    requires
        atoms.wf(),
        n <= atoms.records().len(),
        n <= mask@.len(),
    ensures
        r@ == positions_of(atoms.records(), mask@, n as int),
{
    let mut positions: HashMap<u32, Vec3> = HashMap::new();
    let mut i: usize = 0;
    while i < n
        invariant
            atoms.wf(),
            i <= n <= atoms.records().len(),
            n <= mask@.len(),
            positions@ == positions_of(atoms.records(), mask@, i as int),
        decreases n - i,
    {
        if mask[i] {
            positions.insert(atoms.tag[i], atoms.pos[i]);
        }
        i = i + 1;
    }
    positions
}

fn hold(atoms: &mut Atom, mask: &[bool], n: usize, positions: &HashMap<u32, Vec3>)
    requires
        old(atoms).wf(),
        n <= old(atoms).records().len(),
        n <= mask@.len(),
    ensures
        final(atoms).wf(),
        final(atoms).same_header(old(atoms)),
        final(atoms).records() == all_held(old(atoms).records(), mask@, positions@, n as int),
{
    let ghost start: Seq<Record> = atoms.records();
    let zero: Scalar = Scalar::zero();
    let none: Vec3 = [zero, zero, zero];
    let mut i: usize = 0;
    assert(atoms.records() =~= all_held(start, mask@, positions@, 0));
    while i < n
        invariant
            atoms.wf(),
            atoms.same_header(old(atoms)),
            i <= n <= start.len(),
            n <= mask@.len(),
            none == origin(),
            atoms.records().len() == start.len(),
            atoms.records() == all_held(start, mask@, positions@, i as int),
        decreases n - i,
    {
        let ghost mid: Seq<Record> = atoms.records();
        assert(mid[i as int] == start[i as int]);
        if mask[i] {
            match positions.get(&atoms.tag[i]) {
                Some(p) => {
                    let back: Vec3 = *p;
                    atoms.pos.set(i, back);
                },
                None => {},
            }
            atoms.vel.set(i, none);
            atoms.force.set(i, none);
            assert(atoms.records() =~= mid.update(i as int, held(start[i as int], positions@)));
        }
        i = i + 1;
        assert(atoms.records() =~= all_held(start, mask@, positions@, i as int));
    }
}

/// Holds every pinned group: captures its positions the first time it has
/// members, then puts its atoms back by tag, at rest and without force.
pub fn apply_pin(
    atoms: &mut Atom,
    registry: &PinRegistry,
    groups: &GroupRegistry,
    state: &mut PinState,
)
    requires
        old(atoms).wf(),
        old(atoms).nlocal <= old(atoms).records().len(),
        forall|k: int|
            0 <= k < registry.pins@.len() ==> groups.has((#[trigger] registry.pins@[k]).group@),
        forall|k: int|
            0 <= k < registry.pins@.len() ==> {
                let m = mask_of(groups.groups@, (#[trigger] registry.pins@[k]).group@);
                m.len() == 0 || old(atoms).nlocal <= m.len()
            },
    ensures
        final(atoms).wf(),
        final(atoms).same_header(old(atoms)),
        (final(atoms).records(), entries(final(state).captured@)) == pinned_upto(
            old(atoms).records(),
            entries(old(state).captured@),
            registry.pins@,
            groups.groups@,
            old(atoms).nlocal as int,
            registry.pins@.len() as int,
        ),
{
    let nlocal: usize = atoms.nlocal as usize;
    let ghost first: Seq<Record> = atoms.records();
    let ghost known: Seq<(Seq<char>, Map<u32, Vec3>)> = entries(state.captured@);
    let mut k: usize = 0;
    while k < registry.pins.len()
        invariant
            k <= registry.pins@.len(),
            nlocal == old(atoms).nlocal,
            nlocal <= first.len(),
            atoms.wf(),
            atoms.same_header(old(atoms)),
            atoms.records().len() == first.len(),
            forall|j: int|
                0 <= j < registry.pins@.len() ==> groups.has((#[trigger] registry.pins@[j]).group@),
            forall|j: int|
                0 <= j < registry.pins@.len() ==> {
                    let m = mask_of(groups.groups@, (#[trigger] registry.pins@[j]).group@);
                    m.len() == 0 || nlocal <= m.len()
                },
            (atoms.records(), entries(state.captured@)) == pinned_upto(
                first,
                known,
                registry.pins@,
                groups.groups@,
                nlocal as int,
                k as int,
            ),
        decreases registry.pins.len() - k,
    {
        let name: &String = &registry.pins[k].group;
        let ghost r: Seq<Record> = atoms.records();
        let ghost e: Seq<(Seq<char>, Map<u32, Vec3>)> = entries(state.captured@);
        assert(groups.has(registry.pins@[k as int].group@));
        let group: &Group = groups.expect(name.as_str());
        proof {
            let g: int = choose|g: int|
                {
                    &&& 0 <= g < groups.groups@.len()
                    &&& *group == #[trigger] groups.groups@[g]
                    &&& group.name@ == name@
                    &&& forall|j: int|
                        0 <= j < g ==> (#[trigger] groups.groups@[j]).name@ != name@
                };
            let m = models(groups.groups@);
            assert forall|j: int| 0 <= j < g implies (#[trigger] m[j]).name != name@ by {
                assert(groups.groups@[j].name@ != name@);
            }
            lemma_first_place(m, name@, 0, g);
            assert(group.mask@ == mask_of(groups.groups@, name@));
        }
        if group.mask.len() > 0 {
            let mut p: usize = find_entry(state, name);
            if p == state.captured.len() {
                let positions: HashMap<u32, Vec3> = capture(atoms, group.mask.as_slice(), nlocal);
                state.captured.push(PinnedGroup { group: name.clone(), positions });
                proof {
                    assert(entries(state.captured@) =~= captured_after(
                        r,
                        e,
                        name@,
                        group.mask@,
                        nlocal as int,
                    ));
                }
                p = find_entry(state, name);
                proof {
                    let now: Seq<(Seq<char>, Map<u32, Vec3>)> = entries(state.captured@);
                    lemma_not_before(e, now, name@);
                }
            }
            hold(atoms, group.mask.as_slice(), nlocal, &state.captured[p].positions);
        }
        k = k + 1;
    }
}

proof fn lemma_not_before(
    e: Seq<(Seq<char>, Map<u32, Vec3>)>,
    now: Seq<(Seq<char>, Map<u32, Vec3>)>,
    name: Seq<char>,
)
    requires
        entry_place(e, name, 0) == e.len(),
        now.len() == e.len() + 1,
        now.last().0 == name,
        forall|j: int| 0 <= j < e.len() ==> now[j] == e[j],
    ensures
        entry_place(now, name, 0) == e.len(),
{
    lemma_none_before(e, name, 0);
    assert forall|j: int| 0 <= j < e.len() implies (#[trigger] now[j]).0 != name by {
        assert(e[j].0 != name);
    }
    lemma_entry_place(now, name, 0, e.len() as int);
}

proof fn lemma_none_before(e: Seq<(Seq<char>, Map<u32, Vec3>)>, name: Seq<char>, from: int)
    requires
        0 <= from <= e.len(),
        entry_place(e, name, from) == e.len(),
    ensures
        forall|j: int| from <= j < e.len() ==> (#[trigger] e[j]).0 != name,
    decreases e.len() - from,
{
    if from < e.len() {
        lemma_none_before(e, name, from + 1);
    }
}

/// Holding atoms twice is holding them once.
pub proof fn holding_is_idempotent(
    records: Seq<Record>,
    mask: Seq<bool>,
    pinned: Map<u32, Vec3>,
    n: int,
)
    requires
        0 <= n <= records.len(),
    ensures
        all_held(all_held(records, mask, pinned, n), mask, pinned, n) == all_held(
            records,
            mask,
            pinned,
            n,
        ),
{
    assert(all_held(all_held(records, mask, pinned, n), mask, pinned, n) =~= all_held(
        records,
        mask,
        pinned,
        n,
    ));
}

/// A held atom returns to the position that was captured under its tag,
/// wherever it stands in the arrays.
pub proof fn held_atoms_return_by_tag(
    records: Seq<Record>,
    mask: Seq<bool>,
    pinned: Map<u32, Vec3>,
    n: int,
    i: int,
)
    requires
        0 <= i < n <= records.len(),
        mask[i],
        pinned.dom().contains(records[i].tag),
    ensures
        all_held(records, mask, pinned, n)[i].pos == pinned[records[i].tag],
        all_held(records, mask, pinned, n)[i].tag == records[i].tag,
{
}

/// No two members among the first `n` atoms have the same tag.
pub open spec fn tags_differ(records: Seq<Record>, mask: Seq<bool>, n: int) -> bool {
    forall|i: int, j: int|
        0 <= i < j < n && mask[i] && mask[j] ==> (#[trigger] records[i]).tag != (
        #[trigger] records[j]).tag
}

/// The captured positions of a group are its members' own, each under the member's
/// tag, and there are no others.
pub proof fn captured_positions_are_the_members_own(
    records: Seq<Record>,
    mask: Seq<bool>,
    n: int,
)
    requires
        0 <= n <= records.len(),
        tags_differ(records, mask, n),
    ensures
        forall|i: int|
            0 <= i < n && mask[i] ==> positions_of(records, mask, n).dom().contains(
                (#[trigger] records[i]).tag,
            ) && positions_of(records, mask, n)[records[i].tag] == records[i].pos,
        forall|t: u32| #[trigger]
            positions_of(records, mask, n).dom().contains(t) ==> exists|i: int|
                0 <= i < n && mask[i] && (#[trigger] records[i]).tag == t,
    decreases n,
{
    if n > 0 {
        captured_positions_are_the_members_own(records, mask, n - 1);
        assert forall|t: u32| #[trigger]
            positions_of(records, mask, n).dom().contains(t) implies exists|i: int|
            0 <= i < n && mask[i] && (#[trigger] records[i]).tag == t by {
            if positions_of(records, mask, n - 1).dom().contains(t) {
                let i: int = choose|i: int|
                    0 <= i < n - 1 && mask[i] && (#[trigger] records[i]).tag == t;
                assert(records[i].tag == t);
            } else {
                assert(records[n - 1].tag == t);
            }
        }
    }
}

/// The first pin of a group moves no atom: its members come to rest where they are, and
/// all other atoms are left alone.
pub proof fn first_pin_moves_no_atom(
    records: Seq<Record>,
    entries: Seq<(Seq<char>, Map<u32, Vec3>)>,
    name: Seq<char>,
    mask: Seq<bool>,
    n: int,
    i: int,
)
    requires
        0 <= n <= records.len(),
        n <= mask.len(),
        tags_differ(records, mask, n),
        forall|k: int| 0 <= k < entries.len() ==> (#[trigger] entries[k]).0 != name,
        0 <= i < records.len(),
    ensures
        ({
            let new = records_after(records, entries, name, mask, n);
            &&& new.len() == records.len()
            &&& new[i].pos == records[i].pos
            &&& new[i].tag == records[i].tag
            &&& i < n && mask[i] ==> new[i].vel == origin() && new[i].force == origin()
            &&& i >= n || !mask[i] ==> new[i] == records[i]
        }),
{
    captured_positions_are_the_members_own(records, mask, n);
    lemma_entry_place(entries, name, 0, entries.len() as int);
    let now: Seq<(Seq<char>, Map<u32, Vec3>)> = captured_after(records, entries, name, mask, n);
    if mask.len() > 0 {
        lemma_not_before(entries, now, name);
    }
}

/// A pinned atom is back where it was when its group was captured, whatever moved it
/// since and wherever it stands in the arrays now.
pub proof fn pinned_atoms_return_to_where_they_were(
    first: Seq<Record>,
    entries: Seq<(Seq<char>, Map<u32, Vec3>)>,
    name: Seq<char>,
    first_mask: Seq<bool>,
    first_n: int,
    records: Seq<Record>,
    mask: Seq<bool>,
    n: int,
    i: int,
    j: int,
)
    requires
        0 <= first_n <= first.len(),
        0 < first_mask.len(),
        0 <= n <= records.len(),
        n <= mask.len(),
        tags_differ(first, first_mask, first_n),
        forall|k: int| 0 <= k < entries.len() ==> (#[trigger] entries[k]).0 != name,
        0 <= j < first_n && first_mask[j],
        0 <= i < n && mask[i],
        records[i].tag == first[j].tag,
    ensures
        ({
            let captured = captured_after(first, entries, name, first_mask, first_n);
            let new = records_after(records, captured, name, mask, n)[i];
            &&& new.pos == first[j].pos
            &&& new.tag == first[j].tag
            &&& new.vel == origin()
            &&& new.force == origin()
            &&& captured_after(records, captured, name, mask, n) == captured
        }),
{
    captured_positions_are_the_members_own(first, first_mask, first_n);
    lemma_entry_place(entries, name, 0, entries.len() as int);
    let captured: Seq<(Seq<char>, Map<u32, Vec3>)> = captured_after(
        first,
        entries,
        name,
        first_mask,
        first_n,
    );
    lemma_not_before(entries, captured, name);
}

/// Pins change nothing but positions, velocities and forces of the atoms in their
/// groups.
pub proof fn pins_leave_other_atoms_alone(
    records: Seq<Record>,
    entries: Seq<(Seq<char>, Map<u32, Vec3>)>,
    pins: Seq<PinDef>,
    groups: Seq<Group>,
    n: int,
    k: int,
    i: int,
)
    requires
        0 <= n <= records.len(),
        0 <= k <= pins.len(),
        0 <= i < records.len(),
    ensures
        ({
            let new = pinned_upto(records, entries, pins, groups, n, k).0;
            &&& new.len() == records.len()
            &&& new[i] == (Record {
                pos: new[i].pos,
                vel: new[i].vel,
                force: new[i].force,
                ..records[i]
            })
            &&& (i >= n || forall|m: int|
                0 <= m < k ==> !mask_of(groups, (#[trigger] pins[m]).group@)[i]) ==> new[i]
                == records[i]
        }),
    decreases k,
{
    if k > 0 {
        pins_leave_other_atoms_alone(records, entries, pins, groups, n, k - 1, i);
        if i >= n || forall|m: int|
            0 <= m < k ==> !mask_of(groups, (#[trigger] pins[m]).group@)[i] {
            assert(i < n ==> !mask_of(groups, pins[k - 1].group@)[i]);
        }
    }
}

/// A held atom has neither velocity nor force.
pub proof fn held_atoms_are_at_rest(rec: Record, pinned: Map<u32, Vec3>, d: int)
    requires
        0 <= d < 3,
    ensures
        num(held(rec, pinned).vel[d]) == 0real,
        num(held(rec, pinned).force[d]) == 0real,
{
    crate::exact::lemma_constants();
}

} // verus!

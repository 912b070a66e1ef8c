//! Named groups of atoms.

use crate::atom::Atom;
use crate::region::{inside, Region};
use crate::scalar::{is_arithmetic, Op, Scalar};
use vstd::prelude::*;

verus! {

/// A group as the user defines it: by type, by region, or both.
pub struct GroupDef {
    pub name: String,
    pub atom_types: Option<Vec<u32>>,
    pub region: Option<Region>,
    pub dynamic: Option<bool>,
}

impl GroupDef {
    /// Membership is evaluated again at every rebuild: as the user says, else
    /// where a region decides it.
    pub open spec fn dynamic_group(&self) -> bool {
        match self.dynamic {
            Some(d) => d,
            None => self.region is Some,
        }
    }

    /// Whether membership is evaluated again at every rebuild.
    pub fn is_dynamic(&self) -> (r: bool)
        ensures
            r == self.dynamic_group(),
    {
        match self.dynamic {
            Some(d) => d,
            None => self.region.is_some(),
        }
    }
}

/// A group with its members among the local atoms.
pub struct Group {
    pub name: String,
    pub def: GroupDef,
    pub mask: Vec<bool>,
    pub count: usize,
}

/// A group, by its name, definition, members and size.
pub struct GroupModel {
    pub name: Seq<char>,
    pub def: GroupDef,
    pub mask: Seq<bool>,
    pub count: int,
}

impl View for Group {
    type V = GroupModel;

    open spec fn view(&self) -> GroupModel {
        GroupModel {
            name: self.name@,
            def: self.def,
            mask: self.mask@,
            count: self.count as int,
        }
    }
}

/// The groups, the built-in group of all atoms first.
pub struct GroupRegistry {
    pub groups: Vec<Group>,
}

impl GroupRegistry {
    /// A group has this name.
    pub open spec fn has(&self, name: Seq<char>) -> bool {
        exists|k: int| 0 <= k < self.groups@.len() && (#[trigger] self.groups@[k]).name@ == name
    }

    pub fn new() -> (r: GroupRegistry)
        ensures
            r.groups@.len() == 0,
    {
        GroupRegistry { groups: Vec::new() }
    }

    /// The place of the first group with this name.
    fn find(&self, name: &String) -> (r: Option<usize>)
        ensures
            match r {
                Some(k) => {
                    &&& k < self.groups@.len()
                    &&& self.groups@[k as int].name@ == name@
                    &&& forall|j: int| 0 <= j < k ==> (#[trigger] self.groups@[j]).name@ != name@
                },
                None => !self.has(name@),
            },
    {
        let mut k: usize = 0;
        while k < self.groups.len()
            invariant
                k <= self.groups@.len(),
                forall|j: int| 0 <= j < k ==> (#[trigger] self.groups@[j]).name@ != name@,
            decreases self.groups.len() - k,
        {
            if self.groups[k].name == *name {
                return Some(k);
            }
            k = k + 1;
        }
        None
    }

    /// The first group with this name.
    pub fn get(&self, name: &str) -> (r: Option<&Group>)
        ensures
            match r {
                Some(g) => exists|k: int|
                    {
                        &&& 0 <= k < self.groups@.len()
                        &&& *g == #[trigger] self.groups@[k]
                        &&& g.name@ == name@
                        &&& forall|j: int|
                            0 <= j < k ==> (#[trigger] self.groups@[j]).name@ != name@
                    },
                None => !self.has(name@),
            },
    {
        let wanted: String = name.to_owned();
        match self.find(&wanted) {
            Some(k) => {
                assert(self.groups@[k as int] == self.groups@[k as int]);
                Some(&self.groups[k])
            },
            None => None,
        }
    }

    /// The first group with this name, where there is one.
    pub fn expect(&self, name: &str) -> (r: &Group)
        requires
            self.has(name@),
        ensures
            exists|k: int|
                {
                    &&& 0 <= k < self.groups@.len()
                    &&& *r == #[trigger] self.groups@[k]
                    &&& r.name@ == name@
                    &&& forall|j: int| 0 <= j < k ==> (#[trigger] self.groups@[j]).name@ != name@
                },
    {
        self.get(name).unwrap()
    }

    /// Whether a group has this name.
    pub fn validate_name(&self, name: &str) -> (r: bool)
        ensures
            r == self.has(name@),
    {
        let wanted: String = name.to_owned();
        match self.find(&wanted) {
            Some(k) => {
                assert(self.groups@[k as int].name@ == name@);
                true
            },
            None => false,
        }
    }

    /// The members of a named group; without a name, no restriction.
    pub fn mask_for(&self, group_name: &Option<String>) -> (r: Option<&[bool]>)
        requires
            group_name matches Some(n) ==> self.has(n@),
        ensures
            group_name is None ==> r is None,
            group_name matches Some(n) ==> exists|k: int|
                {
                    &&& 0 <= k < self.groups@.len()
                    &&& (#[trigger] self.groups@[k]).name@ == n@
                    &&& r is Some
                    &&& r->0@ == self.groups@[k].mask@
                    &&& forall|j: int| 0 <= j < k ==> (#[trigger] self.groups@[j]).name@ != n@
                },
    {
        match group_name {
            Some(n) => {
                let g: &Group = self.expect(n.as_str());
                Some(g.mask.as_slice())
            },
            None => None,
        }
    }
}

impl Default for GroupRegistry {
    fn default() -> (r: Self)
        ensures
            r.groups@.len() == 0,
    {
        GroupRegistry::new()
    }
}

/// Whether atom `i` is meant: all atoms are, without a mask.
pub fn group_includes(mask: Option<&[bool]>, i: usize) -> (r: bool)
    requires
        mask matches Some(m) ==> i < m@.len(),
    ensures
        r == match mask {
            Some(m) => m@[i as int],
            None => true,
        },
{
    match mask {
        Some(m) => m[i],
        None => true,
    }
}

/// Atom `i` meets the definition: its type is listed, if types are, and it
/// lies in the region, if there is one.
pub open spec fn is_member<F: Fn(Op, Scalar, Scalar, Scalar) -> Scalar>(
    ar: F,
    def: GroupDef,
    atoms: Atom,
    i: int,
) -> bool {
    &&& def.atom_types matches Some(types) ==> types@.contains(atoms.atom_type@[i])
    &&& def.region matches Some(region) ==> inside(ar, region, atoms.pos@[i])
}

/// Whether atom `i` meets the definition.
pub fn evaluate_membership<F: Fn(Op, Scalar, Scalar, Scalar) -> Scalar>(
    def: &GroupDef,
    atoms: &Atom,
    i: usize,
    ar: &F,
) -> (r: bool)
    requires
        is_arithmetic(*ar),
        atoms.wf(),
        i < atoms.records().len(),
    ensures
        r == is_member(*ar, *def, *atoms, i as int),
{
    match &def.atom_types {
        Some(types) => {
            let t: u32 = atoms.atom_type[i];
            let mut k: usize = 0;
            let mut found: bool = false;
            while k < types.len()
                invariant
                    k <= types@.len(),
                    found == types@.take(k as int).contains(t),
                decreases types.len() - k,
            {
                proof {
                    let a: Seq<u32> = types@.take(k as int);
                    let b: Seq<u32> = types@.take(k + 1);
                    assert(b =~= a.push(types@[k as int]));
                    if a.contains(t) {
                        let j: int = choose|j: int| 0 <= j < a.len() && a[j] == t;
                        assert(b[j] == t);
                    }
                    assert(b[k as int] == types@[k as int]);
                    if b.contains(t) && types@[k as int] != t {
                        let j: int = choose|j: int| 0 <= j < b.len() && b[j] == t;
                        assert(a[j] == t);
                    }
                }
                if types[k] == t {
                    found = true;
                }
                k = k + 1;
            }
            assert(types@.take(k as int) =~= types@);
            if !found {
                return false;
            }
        },
        None => {},
    }
    match &def.region {
        Some(region) => region.contains(&atoms.pos[i], ar),
        None => true,
    }
}

/// The number of members among the first `n`.
pub open spec fn members_upto(mask: Seq<bool>, n: int) -> nat
    decreases n,
{
    if n <= 0 {
        0
    } else {
        members_upto(mask, n - 1) + if mask[n - 1] {
            1nat
        } else {
            0
        }
    }
}

/// The mask that a group with this name and definition gets.
pub open spec fn fresh_mask<F: Fn(Op, Scalar, Scalar, Scalar) -> Scalar>(
    ar: F,
    name: Seq<char>,
    def: GroupDef,
    atoms: Atom,
) -> Seq<bool> {
    Seq::new(
        atoms.nlocal as nat,
        |i: int| name == "all"@ || is_member(ar, def, atoms, i),
    )
}

/// A group after a rebuild: a group that is not dynamic keeps the members it
/// has; any other is evaluated.
pub open spec fn rebuilt<F: Fn(Op, Scalar, Scalar, Scalar) -> Scalar>(
    ar: F,
    g: GroupModel,
    atoms: Atom,
) -> GroupModel {
    if !g.def.dynamic_group() && g.mask.len() > 0 {
        g
    } else {
        let mask = fresh_mask(ar, g.name, g.def, atoms);
        GroupModel { mask, count: members_upto(mask, atoms.nlocal as int) as int, ..g }
    }
}

/// Evaluates the members of every group that needs it.
pub fn rebuild_group_masks<F: Fn(Op, Scalar, Scalar, Scalar) -> Scalar>(
    groups: &mut GroupRegistry,
    atoms: &Atom,
    ar: &F,
)
    requires
        is_arithmetic(*ar),
        atoms.wf(),
        atoms.nlocal <= atoms.records().len(),
    ensures
        final(groups).groups@.len() == old(groups).groups@.len(),
        forall|k: int|
            0 <= k < old(groups).groups@.len() ==> (#[trigger] final(groups).groups@[k])@ == rebuilt(
                *ar,
                old(groups).groups@[k]@,
                *atoms,
            ),
{
    let nlocal: usize = atoms.nlocal as usize;
    let all: String = "all".to_owned();
    let ghost before: Seq<Group> = groups.groups@;
    let mut k: usize = 0;
    while k < groups.groups.len()
        invariant
            is_arithmetic(*ar),
            atoms.wf(),
            nlocal == atoms.nlocal,
            nlocal <= atoms.records().len(),
            all@ == "all"@,
            before == old(groups).groups@,
            k <= groups.groups@.len() == before.len(),
            forall|j: int| k <= j < before.len() ==> groups.groups@[j] == before[j],
            forall|j: int|
                0 <= j < k ==> (#[trigger] groups.groups@[j])@ == rebuilt(
                    *ar,
                    before[j]@,
                    *atoms,
                ),
        decreases groups.groups.len() - k,
    {
        assert(groups.groups@[k as int] == before[k as int]);
        let keep: bool = !groups.groups[k].def.is_dynamic() && groups.groups[k].mask.len() > 0;
        if !keep {
            let is_all: bool = groups.groups[k].name == all;
            let ghost name: Seq<char> = before[k as int].name@;
            let ghost def: GroupDef = before[k as int].def;
            let ghost want: Seq<bool> = fresh_mask(*ar, name, def, *atoms);
            let mut mask: Vec<bool> = Vec::with_capacity(nlocal);
            let mut count: usize = 0;
            let mut i: usize = 0;
            while i < nlocal
                invariant
                    is_arithmetic(*ar),
                    atoms.wf(),
                    nlocal == atoms.nlocal,
                    nlocal <= atoms.records().len(),
                    k < groups.groups@.len(),
                    groups.groups@[k as int].def == def,
                    is_all == (name == "all"@),
                    want == fresh_mask(*ar, name, def, *atoms),
                    i <= nlocal,
                    mask@ == want.take(i as int),
                    count == members_upto(want, i as int),
                    count <= i,
                decreases nlocal - i,
            {
                let included: bool = is_all || evaluate_membership(
                    &groups.groups[k].def,
                    atoms,
                    i,
                    ar,
                );
                assert(want[i as int] == included);
                mask.push(included);
                if included {
                    count = count + 1;
                }
                i = i + 1;
                assert(mask@ =~= want.take(i as int));
            }
            assert(want.take(nlocal as int) =~= want);
            groups.groups[k].mask = mask;
            groups.groups[k].count = count;
        }
        k = k + 1;
    }
}

/// Brings the members up to date.
pub fn rebuild_groups<F: Fn(Op, Scalar, Scalar, Scalar) -> Scalar>(
    atoms: &Atom,
    groups: &mut GroupRegistry,
    ar: &F,
)
    requires
        is_arithmetic(*ar),
        atoms.wf(),
        atoms.nlocal <= atoms.records().len(),
    ensures
        final(groups).groups@.len() == old(groups).groups@.len(),
        forall|k: int|
            0 <= k < old(groups).groups@.len() ==> (#[trigger] final(groups).groups@[k])@ == rebuilt(
                *ar,
                old(groups).groups@[k]@,
                *atoms,
            ),
{
    rebuild_group_masks(groups, atoms, ar);
}

/// A group without members yet.
pub open spec fn new_group(name: Seq<char>, def: GroupDef) -> GroupModel {
    GroupModel { name, def, mask: Seq::empty(), count: 0 }
}

/// The groups, by their models.
pub open spec fn models(groups: Seq<Group>) -> Seq<GroupModel> {
    Seq::new(groups.len(), |k: int| groups[k]@)
}

/// The user's groups of the first stage: those that do not redefine the
/// built-in one.
pub open spec fn first_groups(defs: Seq<GroupDef>, n: int) -> Seq<GroupModel>
    decreases n,
{
    if n <= 0 {
        Seq::empty()
    } else if defs[n - 1].name@ == "all"@ {
        first_groups(defs, n - 1)
    } else {
        first_groups(defs, n - 1).push(new_group(defs[n - 1].name@, defs[n - 1]))
    }
}

/// The first place from `from` on with this name.
pub open spec fn first_place(groups: Seq<GroupModel>, name: Seq<char>, from: int) -> int
    decreases groups.len() - from,
{
    if from >= groups.len() || groups[from].name == name {
        from
    } else {
        first_place(groups, name, from + 1)
    }
}

/// The groups after a later stage defines one: an existing group gets the new
/// definition and loses its members, a new one is added, and the built-in one
/// stays.
pub open spec fn overlaid(groups: Seq<GroupModel>, def: GroupDef) -> Seq<GroupModel> {
    let p = first_place(groups, def.name@, 0);
    if def.name@ == "all"@ {
        groups
    } else if p < groups.len() {
        groups.update(p, GroupModel { def, mask: Seq::empty(), ..groups[p] })
    } else {
        groups.push(new_group(def.name@, def))
    }
}

/// The groups after a later stage defines the first `n` of `defs`.
pub open spec fn overlaid_all(groups: Seq<GroupModel>, defs: Seq<GroupDef>, n: int) -> Seq<GroupModel>
    decreases n,
{
    if n <= 0 {
        groups
    } else {
        overlaid(overlaid_all(groups, defs, n - 1), defs[n - 1])
    }
}

pub proof fn lemma_first_place(groups: Seq<GroupModel>, name: Seq<char>, from: int, p: int)
    requires
        0 <= from <= p <= groups.len(),
        p < groups.len() ==> groups[p].name == name,
        forall|j: int| from <= j < p ==> (#[trigger] groups[j]).name != name,
    ensures
        first_place(groups, name, from) == p,
    decreases p - from,
{
    if from < p {
        assert(groups[from].name != name);
        lemma_first_place(groups, name, from + 1, p);
    }
}

/// Defines the groups of a stage and evaluates them. The first stage starts
/// from the built-in group of all atoms; a later one overlays what is there.
pub fn setup_groups<F: Fn(Op, Scalar, Scalar, Scalar) -> Scalar>(
    groups: &mut GroupRegistry,
    index: usize,
    defs: Vec<GroupDef>,
    atoms: &Atom,
    ar: &F,
)
    requires
        is_arithmetic(*ar),
        atoms.wf(),
        atoms.nlocal <= atoms.records().len(),
    ensures
        ({
            let defined = if index == 0 {
                models_with_all(first_groups(defs@, defs@.len() as int), final(groups).groups@)
            } else {
                overlaid_all(models(old(groups).groups@), defs@, defs@.len() as int)
            };
            &&& final(groups).groups@.len() == defined.len()
            &&& forall|k: int|
                0 <= k < defined.len() ==> (#[trigger] final(groups).groups@[k])@ == rebuilt(
                    *ar,
                    defined[k],
                    *atoms,
                )
        }),
        index == 0 ==> is_builtin(final(groups).groups@[0].def),
{
    let all: String = "all".to_owned();
    let mut rest: Vec<GroupDef> = defs;
    let ghost n: int = defs@.len() as int;
    if index == 0 {
        groups.groups.clear();
        let def: GroupDef = GroupDef {
            name: "all".to_owned(),
            atom_types: None,
            region: None,
            dynamic: None,
        };
        groups.groups.push(Group { name: "all".to_owned(), def, mask: Vec::new(), count: 0 });
    }
    let ghost base: Seq<GroupModel> = models(groups.groups@);
    let mut i: usize = 0;
    let total: usize = rest.len();
    rest = reversed(rest);
    while i < total
        invariant
            i <= total == n,
            n == defs@.len(),
            all@ == "all"@,
            rest@.len() == n - i,
            forall|k: int| 0 <= k < rest@.len() ==> #[trigger] rest@[k] == defs@[n - 1 - k],
            index == 0 ==> base.len() == 1 && models(groups.groups@) == base + first_groups(
                defs@,
                i as int,
            ),
            index != 0 ==> models(groups.groups@) == overlaid_all(base, defs@, i as int),
        decreases total - i,
    {
        let def: GroupDef = rest.pop().unwrap();
        assert(def == defs@[i as int]);
        let ghost here: Seq<GroupModel> = models(groups.groups@);
        if def.name == all {
            i = i + 1;
            continue ;
        }
        if index == 0 {
            let name: String = def.name.clone();
            groups.groups.push(Group { name, def, mask: Vec::new(), count: 0 });
            proof {
                let d: GroupDef = defs@[i as int];
                let fresh: GroupModel = new_group(d.name@, d);
                assert(models(groups.groups@) =~= here.push(fresh));
                assert(first_groups(defs@, i + 1) == first_groups(defs@, i as int).push(fresh));
                assert(here.push(fresh) =~= base + first_groups(defs@, i as int).push(fresh));
            }
        } else {
            let found: Option<usize> = groups.find(&def.name);
            match found {
                Some(k) => {
                    proof {
                        assert forall|j: int| 0 <= j < k implies (#[trigger] here[j]).name
                            != def.name@ by {
                            assert(groups.groups@[j].name@ != def.name@);
                        }
                        lemma_first_place(here, def.name@, 0, k as int);
                    }
                    groups.groups[k].def = def;
                    groups.groups[k].mask.clear();
                    assert(models(groups.groups@) =~= overlaid(here, defs@[i as int]));
                },
                None => {
                    proof {
                        assert forall|j: int| 0 <= j < here.len() implies (#[trigger] here[j]).name
                            != def.name@ by {
                            assert(groups.groups@[j].name@ == here[j].name);
                        }
                        lemma_first_place(here, def.name@, 0, here.len() as int);
                    }
                    let name: String = def.name.clone();
                    groups.groups.push(Group { name, def, mask: Vec::new(), count: 0 });
                    assert(models(groups.groups@) =~= overlaid(here, defs@[i as int]));
                },
            }
        }
        i = i + 1;
    }
    let ghost defined: Seq<Group> = groups.groups@;
    rebuild_group_masks(groups, atoms, ar);
    proof {
        if index == 0 {
            assert(models(defined)[0] == base[0]);
            assert(groups.groups@[0]@.def == base[0].def);
            assert forall|k: int| 0 <= k < defined.len() implies #[trigger] models_with_all(
                first_groups(defs@, n),
                groups.groups@,
            )[k] == defined[k]@ by {
                assert(models(defined)[k] == defined[k]@);
            }
        } else {
            assert forall|k: int| 0 <= k < defined.len() implies #[trigger] overlaid_all(
                base,
                defs@,
                n,
            )[k] == defined[k]@ by {
                assert(models(defined)[k] == defined[k]@);
            }
        }
    }
}

/// The built-in definition: neither types nor a region restrict it.
pub open spec fn is_builtin(def: GroupDef) -> bool {
    def.name@ == "all"@ && def.atom_types is None && def.region is None && def.dynamic is None
}

/// The built-in group, then `more`.
pub open spec fn models_with_all(more: Seq<GroupModel>, groups: Seq<Group>) -> Seq<GroupModel> {
    seq![new_group("all"@, groups[0].def)] + more
}

fn reversed(v: Vec<GroupDef>) -> (r: Vec<GroupDef>)
    ensures
        r@.len() == v@.len(),
        forall|k: int| 0 <= k < r@.len() ==> #[trigger] r@[k] == v@[v@.len() - 1 - k],
{
    let ghost all: Seq<GroupDef> = v@;
    let mut rest: Vec<GroupDef> = v;
    let mut out: Vec<GroupDef> = Vec::with_capacity(rest.len());
    while rest.len() > 0
        invariant
            rest@ == all.take(rest@.len() as int),
            rest@.len() + out@.len() == all.len(),
            forall|k: int| 0 <= k < out@.len() ==> #[trigger] out@[k] == all[all.len() - 1 - k],
        decreases rest.len(),
    {
        let d: GroupDef = rest.pop().unwrap();
        out.push(d);
        assert(rest@ =~= all.take(rest@.len() as int));
    }
    out
}

/// A mask counts its members.
pub proof fn rebuilt_count_is_exact<F: Fn(Op, Scalar, Scalar, Scalar) -> Scalar>(
    ar: F,
    g: GroupModel,
    atoms: Atom,
)
    requires
        g.def.dynamic_group() || g.mask.len() == 0,
    ensures
        rebuilt(ar, g, atoms).mask.len() == atoms.nlocal,
        rebuilt(ar, g, atoms).count == members_upto(
            rebuilt(ar, g, atoms).mask,
            atoms.nlocal as int,
        ),
        g.name == "all"@ ==> forall|i: int|
            0 <= i < atoms.nlocal ==> #[trigger] rebuilt(ar, g, atoms).mask[i],
        g.name != "all"@ ==> forall|i: int|
            0 <= i < atoms.nlocal ==> #[trigger] rebuilt(ar, g, atoms).mask[i] == is_member(
                ar,
                g.def,
                atoms,
                i,
            ),
{
}

/// A group that is not dynamic is evaluated once: whatever the atoms do later,
/// a rebuild leaves its members alone.
pub proof fn static_groups_are_kept<F: Fn(Op, Scalar, Scalar, Scalar) -> Scalar>(
    ar: F,
    g: GroupModel,
    atoms: Atom,
    later: Atom,
)
    requires
        !g.def.dynamic_group(),
        atoms.nlocal > 0,
    ensures
        rebuilt(ar, rebuilt(ar, g, atoms), later) == rebuilt(ar, g, atoms),
{
}

} // verus!

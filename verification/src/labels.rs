//! Columns hold what they are named after, and groups and lists what they are asked for.

use crate::atom::Atom;
use crate::atom_data::{permuted, AtomData, AtomDataRegistry};
use crate::bond::{excluded, BondEntry, BondStore};
use crate::dump::{lemma_vector_entries, BoxInfo, DumpFrame};
use crate::dump_formats::{column_names, file_values, lammps_lines, row_fields, vector_names};
use crate::dump_registry::framed;
use crate::energy::exact_dot;
use crate::exact::{exact_quotient, exact_root, lemma_constants, lemma_divided, lemma_order, num};
use crate::group::{
    is_member, lemma_first_place, members_upto, overlaid, rebuilt, GroupDef, GroupModel,
};
use crate::region::inside;
use crate::restart::{restored, RestartData};
use crate::scalar::{Op, Scalar, Vec3};
use crate::text::{digits, joined_with, padded, rendered, Style};
use crate::thermo::{cell, header_cells, row_cells, Thermo, ThermoColumn, ThermoTotals};
use crate::vec3::{dot_of, norm_of};
use crate::vtp::{ghost_lines, scalar_lines, speed_lines, vector_lines};
use vstd::prelude::*;
use vstd::string::*;

verus! {

/// The values of an atom stand in the files in this order: position, velocity, force,
/// radius, the scalar columns, the vector columns.
pub proof fn file_values_are_in_order(f: DumpFrame, i: int, c: int, d: int)
    requires
        0 <= d < 3,
    ensures
        ({
            let values = file_values(f, i);
            let (s, v) = (f.scalars@.len() as int, f.vectors@.len() as int);
            &&& values.len() == 10 + s + 3 * v
            &&& values[d] == f.pos@[i][d]
            &&& values[3 + d] == f.vel@[i][d]
            &&& values[6 + d] == f.force@[i][d]
            &&& values[9] == f.radius@[i]
            &&& 0 <= c < s ==> values[10 + c] == f.scalars@[c].1@[i]
            &&& 0 <= c < v ==> values[10 + s + 3 * c + d] == f.vectors@[c].1@[i][d]
        }),
{
    let v: int = f.vectors@.len() as int;
    lemma_vector_entries(f.vectors@, i, v, c);
    if 0 <= c < v {
        let entries: Seq<Scalar> = crate::dump::vector_entries(f.vectors@, i, v);
        assert(entries[3 * c + d] == entries.subrange(3 * c, 3 * c + 3)[d]);
    }
}

proof fn lemma_vector_names(columns: Seq<(String, Vec<Vec3>)>, k: int, c: int)
    requires
        0 <= k,
    ensures
        vector_names(columns, k).len() == 3 * k,
        0 <= c < k ==> {
            &&& vector_names(columns, k)[3 * c] == columns[c].0@ + "_x"@
            &&& vector_names(columns, k)[3 * c + 1] == columns[c].0@ + "_y"@
            &&& vector_names(columns, k)[3 * c + 2] == columns[c].0@ + "_z"@
        },
    decreases k,
{
    if k > 0 {
        lemma_vector_names(columns, k - 1, c);
    }
}

/// A text file has a name for every value and a value for every name, and the value
/// under a name is the one that the name says.
pub proof fn columns_are_named_after_their_values<R: Fn(Style, Scalar) -> String>(
    show: R,
    f: DumpFrame,
    first: Seq<char>,
    i: int,
    c: int,
)
    ensures
        ({
            let (names, fields) = (column_names(f, first), row_fields(show, f, i));
            let text = |x: Scalar| rendered(show, Style::Plain, x);
            let (s, v) = (f.scalars@.len() as int, f.vectors@.len() as int);
            &&& names.len() == fields.len()
            &&& names[0] == first && fields[0] == digits(f.tag@[i] as nat)
            &&& names[1] == "type"@ && fields[1] == digits(f.atom_type@[i] as nat)
            &&& names[2] == "x"@ && fields[2] == text(f.pos@[i][0])
            &&& names[3] == "y"@ && fields[3] == text(f.pos@[i][1])
            &&& names[4] == "z"@ && fields[4] == text(f.pos@[i][2])
            &&& names[5] == "vx"@ && fields[5] == text(f.vel@[i][0])
            &&& names[6] == "vy"@ && fields[6] == text(f.vel@[i][1])
            &&& names[7] == "vz"@ && fields[7] == text(f.vel@[i][2])
            &&& names[8] == "fx"@ && fields[8] == text(f.force@[i][0])
            &&& names[9] == "fy"@ && fields[9] == text(f.force@[i][1])
            &&& names[10] == "fz"@ && fields[10] == text(f.force@[i][2])
            &&& names[11] == "radius"@ && fields[11] == text(f.radius@[i])
            &&& 0 <= c < s ==> names[12 + c] == f.scalars@[c].0@ && fields[12 + c] == text(
                f.scalars@[c].1@[i],
            )
            &&& 0 <= c < v ==> {
                let at = 12 + s + 3 * c;
                let (name, value) = (f.vectors@[c].0@, f.vectors@[c].1@[i]);
                &&& names[at] == name + "_x"@ && fields[at] == text(value[0])
                &&& names[at + 1] == name + "_y"@ && fields[at + 1] == text(value[1])
                &&& names[at + 2] == name + "_z"@ && fields[at + 2] == text(value[2])
            }
            &&& f.is_ghost matches Some(g) ==> names.last() == "IsGhost"@ && fields.last()
                == if g@[i] {
                "1"@
            } else {
                "0"@
            }
        }),
{
    let (s, v): (int, int) = (f.scalars@.len() as int, f.vectors@.len() as int);
    file_values_are_in_order(f, i, c, 0);
    file_values_are_in_order(f, i, c, 1);
    file_values_are_in_order(f, i, c, 2);
    lemma_vector_names(f.vectors@, v, c);
    let values: Seq<Scalar> = file_values(f, i);
    let fields: Seq<Seq<char>> = row_fields(show, f, i);
    assert forall|k: int| 0 <= k < values.len() implies #[trigger] fields[2 + k] == rendered(
        show,
        Style::Plain,
        values[k],
    ) by {}
    assert(fields[2] == rendered(show, Style::Plain, values[0]));
    assert(fields[3] == rendered(show, Style::Plain, values[1]));
    assert(fields[4] == rendered(show, Style::Plain, values[2]));
    assert(fields[5] == rendered(show, Style::Plain, values[3]));
    assert(fields[6] == rendered(show, Style::Plain, values[4]));
    assert(fields[7] == rendered(show, Style::Plain, values[5]));
    assert(fields[8] == rendered(show, Style::Plain, values[6]));
    assert(fields[9] == rendered(show, Style::Plain, values[7]));
    assert(fields[10] == rendered(show, Style::Plain, values[8]));
    assert(fields[11] == rendered(show, Style::Plain, values[9]));
    if 0 <= c < s {
        assert(fields[2 + (10 + c)] == rendered(show, Style::Plain, values[10 + c]));
    }
    if 0 <= c < v {
        let at: int = 10 + s + 3 * c;
        assert(fields[2 + at] == rendered(show, Style::Plain, values[at]));
        assert(fields[2 + (at + 1)] == rendered(show, Style::Plain, values[at + 1]));
        assert(fields[2 + (at + 2)] == rendered(show, Style::Plain, values[at + 2]));
    }
}

/// A frame shows of each atom what the atom is: its tag, type, position, velocity, force
/// and radius; the flags, where there are any, tell the ghosts.
pub proof fn frames_show_the_atoms(
    frame: DumpFrame,
    atoms: Atom,
    ghosts: bool,
    step: usize,
    info: BoxInfo,
    scalars: Seq<(String, Vec<Scalar>)>,
    vectors: Seq<(String, Vec<Vec3>)>,
    i: int,
)
    requires
        atoms.wf(),
        atoms.nlocal <= atoms.records().len(),
        framed(frame, atoms, ghosts, step, info, scalars, vectors),
    ensures
        frame.count() == if ghosts {
            atoms.records().len() as int
        } else {
            atoms.nlocal as int
        },
        0 <= i < frame.count() ==> {
            let rec = atoms.records()[i];
            &&& frame.tag@[i] == rec.tag
            &&& frame.atom_type@[i] == rec.atom_type
            &&& frame.pos@[i] == rec.pos
            &&& frame.vel@[i] == rec.vel
            &&& frame.force@[i] == rec.force
            &&& frame.radius@[i] == rec.cutoff_radius
            &&& frame.is_ghost matches Some(g) ==> g@[i] == (i >= atoms.nlocal)
            &&& frame.is_ghost is Some == ghosts
        },
{
}

/// A checkpoint holds each component under its own name.
pub proof fn checkpoints_are_labelled<D: AtomData>(
    data: RestartData,
    atoms: Atom,
    registry: AtomDataRegistry<D>,
    step: usize,
    i: int,
)
    requires
        atoms.wf(),
        0 <= i < atoms.nlocal <= atoms.records().len(),
        data.saves(atoms, registry, step),
    ensures
        ({
            let rec = atoms.records()[i];
            &&& data.tag@[i] == rec.tag && data.atom_type@[i] == rec.atom_type
            &&& data.pos_x@[i] == rec.pos[0] && data.pos_y@[i] == rec.pos[1] && data.pos_z@[i]
                == rec.pos[2]
            &&& data.vel_x@[i] == rec.vel[0] && data.vel_y@[i] == rec.vel[1] && data.vel_z@[i]
                == rec.vel[2]
            &&& data.force_x@[i] == rec.force[0] && data.force_y@[i] == rec.force[1]
                && data.force_z@[i] == rec.force[2]
            &&& data.mass@[i] == rec.mass && data.cutoff_radius@[i] == rec.cutoff_radius
        }),
        data.tag@.len() == atoms.nlocal,
        data.total_cycle == step,
        data.natoms == atoms.natoms,
        data.dt == atoms.dt,
{
}

/// A restored atom is local, and its inverse mass is the inverse of its mass.
pub proof fn restored_atoms_can_be_moved<F: Fn(Op, Scalar, Scalar, Scalar) -> Scalar>(
    ar: F,
    data: RestartData,
    before: Atom,
    new: Atom,
    i: int,
)
    requires
        restored(ar, data, before, new),
        data.even(),
        0 <= i < data.tag@.len(),
        exact_quotient(ar, Scalar::one(), data.mass@[i]),
    ensures
        num(new.inv_mass@[i]) * num(new.mass@[i]) == 1real,
        new.mass@[i] == data.mass@[i],
        !new.is_ghost@[i],
        new.pos@[i][0] == data.pos_x@[i],
        new.pos@[i][1] == data.pos_y@[i],
        new.pos@[i][2] == data.pos_z@[i],
        new.vel@[i][0] == data.vel_x@[i],
        new.vel@[i][1] == data.vel_y@[i],
        new.vel@[i][2] == data.vel_z@[i],
        new.image@[i][0] == 0 && new.image@[i][1] == 0 && new.image@[i][2] == 0,
{
    lemma_constants();
    lemma_divided(1real, num(data.mass@[i]));
}

/// A group has the atoms whose type is listed and that lie in its region: what a region
/// leaves out or the types leave out is no member, and nothing else is left out.
pub proof fn members_meet_both_conditions<F: Fn(Op, Scalar, Scalar, Scalar) -> Scalar>(
    ar: F,
    def: GroupDef,
    by_type: GroupDef,
    by_region: GroupDef,
    atoms: Atom,
    i: int,
)
    requires
        by_type.atom_types == def.atom_types && by_type.region is None,
        by_region.region == def.region && by_region.atom_types is None,
    ensures
        is_member(ar, def, atoms, i) <==> is_member(ar, by_type, atoms, i) && is_member(
            ar,
            by_region,
            atoms,
            i,
        ),
        by_type.atom_types is None ==> is_member(ar, by_type, atoms, i),
        by_type.atom_types matches Some(types) ==> (is_member(ar, by_type, atoms, i) <==> exists|
            k: int,
        |
            0 <= k < types@.len() && #[trigger] types@[k] == atoms.atom_type@[i]),
        by_region.region is None ==> is_member(ar, by_region, atoms, i),
        by_region.region matches Some(region) ==> (is_member(ar, by_region, atoms, i) <==> inside(
            ar,
            region,
            atoms.pos@[i],
        )),
{
}

/// Members and others together are all atoms, and no member means a count of zero.
pub proof fn counts_add_up(mask: Seq<bool>, others: Seq<bool>, n: int)
    requires
        0 <= n <= mask.len(),
        others.len() == mask.len(),
        forall|i: int| 0 <= i < mask.len() ==> #[trigger] others[i] == !mask[i],
    ensures
        members_upto(mask, n) + members_upto(others, n) == n,
        (forall|i: int| 0 <= i < n ==> !#[trigger] mask[i]) ==> members_upto(mask, n) == 0,
        (forall|i: int| 0 <= i < n ==> #[trigger] mask[i]) ==> members_upto(mask, n) == n,
    decreases n,
{
    if n > 0 {
        counts_add_up(mask, others, n - 1);
        assert(others[n - 1] == !mask[n - 1]);
    }
}

/// The group of all atoms counts all local atoms.
pub proof fn the_group_of_all_counts_all<F: Fn(Op, Scalar, Scalar, Scalar) -> Scalar>(
    ar: F,
    g: GroupModel,
    atoms: Atom,
)
    requires
        g.name == "all"@,
        g.def.dynamic_group() || g.mask.len() == 0,
    ensures
        rebuilt(ar, g, atoms).count == atoms.nlocal,
{
    let mask: Seq<bool> = rebuilt(ar, g, atoms).mask;
    counts_add_up(mask, Seq::new(mask.len(), |i: int| !mask[i]), atoms.nlocal as int);
}

/// A pair is excluded exactly if its atoms are bonded to each other, or some atom is
/// bonded to both.
pub proof fn pairs_up_to_two_bonds_apart_are_excluded(
    store: BondStore,
    i: int,
    j: int,
    tags: Seq<u32>,
)
    requires
        0 <= i < store.bonds@.len(),
        0 <= j < store.bonds@.len(),
    ensures
        ({
            let (a, b) = (store.bonds@[i]@, store.bonds@[j]@);
            let partner = |list: Seq<BondEntry>, t: u32|
                exists|k: int| 0 <= k < list.len() && (#[trigger] list[k]).partner_tag == t;
            excluded(store, i, j, tags) <==> partner(a, tags[j]) || exists|t: u32|
                partner(a, t) && #[trigger] partner(b, t)
        }),
{
    let (a, b): (Seq<BondEntry>, Seq<BondEntry>) = (store.bonds@[i]@, store.bonds@[j]@);
    let partner: spec_fn(Seq<BondEntry>, u32) -> bool = |list: Seq<BondEntry>, t: u32|
        exists|k: int| 0 <= k < list.len() && (#[trigger] list[k]).partner_tag == t;
    if crate::bond::share_partner(a, b) {
        let (p, q): (int, int) = choose|p: int, q: int|
            0 <= p < a.len() && 0 <= q < b.len() && (#[trigger] a[p]).partner_tag == (
            #[trigger] b[q]).partner_tag;
        let t: u32 = a[p].partner_tag;
        assert(partner(a, t)) by {
            assert(a[p].partner_tag == t);
        }
        assert(partner(b, t)) by {
            assert(b[q].partner_tag == t);
        }
    }
    if exists|t: u32| partner(a, t) && #[trigger] partner(b, t) {
        let t: u32 = choose|t: u32| partner(a, t) && #[trigger] partner(b, t);
        let p: int = choose|p: int| 0 <= p < a.len() && (#[trigger] a[p]).partner_tag == t;
        let q: int = choose|q: int| 0 <= q < b.len() && (#[trigger] b[q]).partner_tag == t;
        assert(a[p].partner_tag == b[q].partner_tag);
    }
}

/// The speed that is shown of an atom is the length of its velocity.
pub proof fn shown_speeds_are_lengths<
    F: Fn(Op, Scalar, Scalar, Scalar) -> Scalar,
    R: Fn(Style, Scalar) -> String,
>(ar: F, show: R, vel: Seq<Vec3>, i: int) -> (s: Scalar)
    requires
        0 <= i < vel.len(),
        exact_dot(ar, vel[i], vel[i]),
        exact_root(ar, dot_of(ar, vel[i], vel[i])),
    ensures
        speed_lines(ar, show, vel)[i] == rendered(show, Style::Plain, s),
        num(s) >= 0real,
        num(s) * num(s) == num(vel[i][0]) * num(vel[i][0]) + num(vel[i][1]) * num(vel[i][1]) + num(
            vel[i][2],
        ) * num(vel[i][2]),
{
    norm_of(ar, vel[i])
}

/// A text in a field stands at its left, with blanks behind it up to the width.
pub proof fn padding_fills_the_field(s: Seq<char>, width: nat)
    ensures
        padded(s, width).len() == if s.len() >= width {
            s.len()
        } else {
            width
        },
        padded(s, width).take(s.len() as int) == s,
        forall|k: int| s.len() <= k < padded(s, width).len() ==> #[trigger] padded(s, width)[k] == ' ',
{
    assert(padded(s, width).take(s.len() as int) =~= s);
}

/// Texts that are joined in two parts are joined as a whole, with one separator between
/// the parts.
pub proof fn joining_can_be_split(a: Seq<Seq<char>>, b: Seq<Seq<char>>, sep: Seq<char>)
    requires
        a.len() > 0,
        b.len() > 0,
    ensures
        joined_with(a + b, sep) == joined_with(a, sep) + sep + joined_with(b, sep),
        b.len() == 1 ==> joined_with(b, sep) == b[0],
    decreases b.len(),
{
    assert((a + b).drop_last() =~= a + b.drop_last());
    assert((a + b).last() == b.last());
    if b.len() > 1 {
        joining_can_be_split(a, b.drop_last(), sep);
        assert(joined_with(a + b, sep) =~= joined_with(a, sep) + sep + joined_with(b, sep));
    } else {
        assert(a + b.drop_last() =~= a);
        assert(joined_with(a + b, sep) =~= joined_with(a, sep) + sep + joined_with(b, sep));
    }
}

/// The columns of the table stand below their headers: a header and a value that both
/// fit into the column take up the column's width.
pub proof fn rows_stand_below_their_headers<
    F: Fn(Op, Scalar, Scalar, Scalar) -> Scalar,
    R: Fn(Style, Scalar) -> String,
>(ar: F, show: R, thermo: Thermo, step: int, totals: ThermoTotals, k: int)
    requires
        0 <= k < thermo.columns@.len(),
        thermo.columns@[k].header@.len() <= thermo.columns@[k].width,
        cell(ar, show, thermo, thermo.columns@[k], step, totals).len() <= thermo.columns@[k].width,
    ensures
        header_cells(thermo.columns@).len() == row_cells(ar, show, thermo, step, totals).len(),
        header_cells(thermo.columns@)[k].len() == row_cells(ar, show, thermo, step, totals)[k].len(),
        header_cells(thermo.columns@)[k].len() == thermo.columns@[k].width,
{
    let column: ThermoColumn = thermo.columns@[k];
    padding_fills_the_field(column.header@, column.width as nat);
    padding_fills_the_field(
        cell(ar, show, thermo, column, step, totals),
        column.width as nat,
    );
}

/// A LAMMPS snapshot tells the step, the number of atoms, which axes are periodic and the
/// bounds of each axis, lower first; then it has one line for each atom.
pub proof fn snapshots_tell_the_box<R: Fn(Style, Scalar) -> String>(show: R, f: DumpFrame, d: int)
    requires
        0 <= d < 3,
    ensures
        ({
            let lines = lammps_lines(show, f);
            let token = |p: bool|
                if p {
                    "pp"@
                } else {
                    "ff"@
                };
            let periodic = f.box_info.periodic;
            &&& lines.len() == 9 + f.count()
            &&& lines[1] == digits(f.step as nat)
            &&& lines[3] == digits(f.count())
            &&& lines[4] == "ITEM: BOX BOUNDS "@ + token(periodic[0]) + " "@ + token(periodic[1])
                + " "@ + token(periodic[2])
            &&& lines[5 + d] == rendered(show, Style::Plain, f.box_info.low[d]) + " "@ + rendered(
                show,
                Style::Plain,
                f.box_info.high[d],
            )
            &&& forall|i: int|
                0 <= i < f.count() ==> #[trigger] lines[9 + i] == joined_with(
                    row_fields(show, f, i),
                    " "@,
                )
        }),
{
    let lines: Seq<Seq<char>> = lammps_lines(show, f);
    assert(lines[5 + d] == crate::dump_formats::bounds_text(show, f, d));
}

/// The lines of a ParaView array: a value for each atom that has one, zero for the others,
/// and a one for each ghost.
pub proof fn point_lines_are_those_of_the_atoms<R: Fn(Style, Scalar) -> String>(
    show: R,
    data: Seq<Scalar>,
    vectors: Seq<Vec3>,
    nlocal: int,
    n: nat,
    i: int,
)
    requires
        0 <= i < n,
    ensures
        scalar_lines(show, data, n).len() == n,
        i < data.len() ==> scalar_lines(show, data, n)[i] == rendered(show, Style::Plain, data[i]),
        i >= data.len() ==> scalar_lines(show, data, n)[i] == "0"@,
        vector_lines(show, vectors, n).len() == n,
        i < vectors.len() ==> vector_lines(show, vectors, n)[i] == rendered(
            show,
            Style::Plain,
            vectors[i][0],
        ) + " "@ + rendered(show, Style::Plain, vectors[i][1]) + " "@ + rendered(
            show,
            Style::Plain,
            vectors[i][2],
        ),
        ghost_lines(nlocal, n).len() == n,
        ghost_lines(nlocal, n)[i] == if i < nlocal {
            "0"@
        } else {
            "1"@
        },
{
}

/// A later stage that defines a group gives the group of that name the new definition and
/// takes its members away, or adds a group where there is none of that name. All other
/// groups, and the group of all atoms, stay as they are.
pub proof fn definitions_overlay_one_group(groups: Seq<GroupModel>, def: GroupDef, k: int)
    requires
        0 <= k < groups.len(),
        forall|j: int| 0 <= j < k ==> (#[trigger] groups[j]).name != def.name@,
    ensures
        def.name@ == "all"@ ==> overlaid(groups, def) == groups,
        def.name@ != "all"@ && groups[k].name == def.name@ ==> {
            let new = overlaid(groups, def);
            &&& new.len() == groups.len()
            &&& new[k].def == def && new[k].name == def.name@ && new[k].mask.len() == 0
            &&& forall|j: int|
                0 <= j < groups.len() && j != k ==> #[trigger] new[j] == groups[j]
        },
        def.name@ != "all"@ && (forall|j: int|
            0 <= j < groups.len() ==> (#[trigger] groups[j]).name != def.name@) ==> {
            let new = overlaid(groups, def);
            &&& new.len() == groups.len() + 1
            &&& new.last().def == def && new.last().name == def.name@ && new.last().mask.len() == 0
            &&& forall|j: int| 0 <= j < groups.len() ==> #[trigger] new[j] == groups[j]
        },
{
    if groups[k].name == def.name@ {
        lemma_first_place(groups, def.name@, 0, k);
    }
    if forall|j: int| 0 <= j < groups.len() ==> (#[trigger] groups[j]).name != def.name@ {
        lemma_first_place(groups, def.name@, 0, groups.len() as int);
    }
}

/// A group changes with the atoms as the user says, and without a word of the user where
/// a region decides who belongs to it.
pub proof fn groups_follow_their_region(def: GroupDef)
    ensures
        def.dynamic == Some(true) ==> def.dynamic_group(),
        def.dynamic == Some(false) ==> !def.dynamic_group(),
        def.dynamic is None ==> (def.dynamic_group() <==> def.region is Some),
{
}

/// Reordering puts at each place the element that the order names; elements behind the
/// order stay.
pub proof fn reordering_follows_the_order<T>(s: Seq<T>, perm: Seq<usize>, i: int)
    requires
        perm.len() <= s.len(),
        0 <= i < s.len(),
    ensures
        permuted(s, perm).len() == s.len(),
        i < perm.len() ==> permuted(s, perm)[i] == s[perm[i] as int],
        i >= perm.len() ==> permuted(s, perm)[i] == s[i],
{
}

/// The greater, the smaller and the nearest number within bounds are those of the reals.
pub proof fn choices_are_those_of_the_reals(a: Scalar, b: Scalar, c: Scalar)
    requires
        !a.nan() && !b.nan() && !c.nan(),
    ensures
        num(a.greater(b)) >= num(a) && num(a.greater(b)) >= num(b),
        a.greater(b) == a || a.greater(b) == b,
        num(a.smaller(b)) <= num(a) && num(a.smaller(b)) <= num(b),
        a.smaller(b) == a || a.smaller(b) == b,
        num(b) <= num(c) ==> num(b) <= num(a.clamped(b, c)) <= num(c),
        num(b) <= num(a) <= num(c) ==> num(a.clamped(b, c)) == num(a),
        num(a) < num(b) <= num(c) ==> num(a.clamped(b, c)) == num(b),
        num(b) <= num(c) < num(a) ==> num(a.clamped(b, c)) == num(c),
{
    lemma_order(a, b);
    lemma_order(b, a);
    lemma_order(a, c);
    lemma_order(c, a);
    lemma_order(b, c);
}

} // verus!

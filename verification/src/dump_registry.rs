//! What a snapshot is made of: the registered columns and formats, the frame of
//! one process, and where frames are written.

use crate::atom::Atom;
use crate::domain::{BoundaryType, Domain};
use crate::dump::{unit_box, BoxInfo, DumpFrame};
use crate::scalar::{Scalar, Vec3};
use crate::text::{decimal, digits, join, joined_with, signed_decimal, signed_digits, texts};
use vstd::prelude::*;
use vstd::string::*;

verus! {

/// The columns that plugins add to every snapshot, the formats in which a
/// snapshot can be written, and the current box. `S` and `V` compute a scalar
/// and a vector column, `W` writes a frame.
pub struct DumpRegistry<S, V, W> {
    pub scalar_fns: Vec<(String, S)>,
    pub vector_fns: Vec<(String, V)>,
    pub format_fns: Vec<(String, W)>,
    pub current_box: BoxInfo,
}

/// The names of a list.
pub open spec fn names<T>(list: Seq<(String, T)>) -> Seq<Seq<char>> {
    Seq::new(list.len(), |k: int| list[k].0@)
}

impl<S, V, W> Default for DumpRegistry<S, V, W> {
    fn default() -> (r: DumpRegistry<S, V, W>)
        ensures
            r.is_new(),
    {
        DumpRegistry::new()
    }
}

impl<S, V, W> DumpRegistry<S, V, W> {
    /// Nothing is registered, and the box is the unit box.
    pub open spec fn is_new(&self) -> bool {
        &&& self.scalar_fns@.len() == 0
        &&& self.vector_fns@.len() == 0
        &&& self.format_fns@.len() == 0
        &&& self.current_box == unit_box()
    }

    pub fn new() -> (r: DumpRegistry<S, V, W>)
        ensures
            r.is_new(),
    {
        DumpRegistry {
            scalar_fns: Vec::new(),
            vector_fns: Vec::new(),
            format_fns: Vec::new(),
            current_box: BoxInfo::default(),
        }
    }

    /// Adds a scalar column.
    pub fn register_scalar(&mut self, name: String, f: S)
        ensures
            final(self).scalar_fns@ == old(self).scalar_fns@.push((name, f)),
            final(self).vector_fns == old(self).vector_fns,
            final(self).format_fns == old(self).format_fns,
            final(self).current_box == old(self).current_box,
    {
        self.scalar_fns.push((name, f));
    }

    /// Adds a vector column.
    pub fn register_vector(&mut self, name: String, f: V)
        ensures
            final(self).scalar_fns == old(self).scalar_fns,
            final(self).vector_fns@ == old(self).vector_fns@.push((name, f)),
            final(self).format_fns == old(self).format_fns,
            final(self).current_box == old(self).current_box,
    {
        self.vector_fns.push((name, f));
    }

    /// Adds a format; it takes the place of an earlier one of that name.
    pub fn register_format(&mut self, name: String, f: W)
        ensures
            final(self).scalar_fns == old(self).scalar_fns,
            final(self).vector_fns == old(self).vector_fns,
            final(self).format_fns@ == old(self).format_fns@.push((name, f)),
            final(self).current_box == old(self).current_box,
    {
        self.format_fns.push((name, f));
    }

    /// Sets the box of the frames to come.
    pub fn set_box(&mut self, info: BoxInfo)
        ensures
            final(self).scalar_fns == old(self).scalar_fns,
            final(self).vector_fns == old(self).vector_fns,
            final(self).format_fns == old(self).format_fns,
            final(self).current_box == info,
    {
        self.current_box = info;
    }

    /// The box of the frames to come.
    pub fn box_info(&self) -> (r: BoxInfo)
        ensures
            r == self.current_box,
    {
        self.current_box
    }

    /// The writer at `i` is the one that was registered last under `name`.
    pub open spec fn writes(&self, name: Seq<char>, i: int) -> bool {
        &&& 0 <= i < self.format_fns@.len()
        &&& self.format_fns@[i].0@ == name
        &&& forall|j: int|
            i < j < self.format_fns@.len() ==> (#[trigger] self.format_fns@[j]).0@ != name
    }

    /// The writer that was registered last under `name`.
    pub fn find_format(&self, name: &str) -> (r: Option<&W>)
        ensures
            match r {
                Some(w) => exists|i: int|
                    self.writes(name@, i) && *w == (#[trigger] self.format_fns@[i]).1,
                None => !names(self.format_fns@).contains(name@),
            },
    {
        let wanted: String = name.to_owned();
        let mut i: usize = self.format_fns.len();
        while i > 0
            invariant
                i <= self.format_fns@.len(),
                wanted@ == name@,
                forall|j: int|
                    i <= j < self.format_fns@.len() ==> (#[trigger] self.format_fns@[j]).0@ != name@,
            decreases i,
        {
            i = i - 1;
            if self.format_fns[i].0 == wanted {
                assert(self.writes(name@, i as int));
                return Some(&self.format_fns[i].1);
            }
        }
        proof {
            assert forall|j: int| 0 <= j < names(self.format_fns@).len() implies #[trigger] names(
                self.format_fns@,
            )[j] != name@ by {
                assert(self.format_fns@[j].0@ != name@);
            }
        }
        None
    }

    /// The names of the registered formats, in the order of registration.
    pub fn format_names(&self) -> (r: Vec<String>)
        ensures
            texts(r@) == names(self.format_fns@),
    {
        let mut out: Vec<String> = Vec::new();
        let mut k: usize = 0;
        while k < self.format_fns.len()
            invariant
                k <= self.format_fns@.len(),
                out@.len() == k,
                forall|j: int| 0 <= j < k ==> (#[trigger] out@[j])@ == self.format_fns@[j].0@,
            decreases self.format_fns.len() - k,
        {
            out.push(self.format_fns[k].0.clone());
            k = k + 1;
        }
        assert(texts(out@) =~= names(self.format_fns@));
        out
    }

    /// Whether any column was registered.
    pub fn has_callbacks(&self) -> (r: bool)
        ensures
            r == (self.scalar_fns@.len() > 0 || self.vector_fns@.len() > 0),
    {
        self.scalar_fns.len() > 0 || self.vector_fns.len() > 0
    }
}

/// The last registration of a format counts, whatever was registered before.
pub proof fn last_registration_wins<S, V, W>(
    before: DumpRegistry<S, V, W>,
    after: DumpRegistry<S, V, W>,
    name: String,
    f: W,
    i: int,
)
    requires
        after.format_fns@ == before.format_fns@.push((name, f)),
        after.writes(name@, i),
    ensures
        after.format_fns@[i].1 == f,
{
    let last: int = before.format_fns@.len() as int;
    assert(after.format_fns@[last].0@ == name@);
}

/// The box of the snapshots is the simulation box.
pub fn sync_dump_box<S, V, W>(domain: &Domain, registry: &mut DumpRegistry<S, V, W>)
    ensures
        final(registry).current_box == (BoxInfo {
            low: domain.boundaries_low,
            high: domain.boundaries_high,
            periodic: [
                domain.boundary_type[0] == BoundaryType::Periodic,
                domain.boundary_type[1] == BoundaryType::Periodic,
                domain.boundary_type[2] == BoundaryType::Periodic,
            ],
        }),
        final(registry).scalar_fns == old(registry).scalar_fns,
        final(registry).vector_fns == old(registry).vector_fns,
        final(registry).format_fns == old(registry).format_fns,
{
    registry.set_box(
        BoxInfo {
            low: domain.boundaries_low,
            high: domain.boundaries_high,
            periodic: [domain.is_periodic(0), domain.is_periodic(1), domain.is_periodic(2)],
        },
    );
}


/// A column of `count` entries: those of `data`, and `filler` where there are
/// none.
pub open spec fn filled<T>(data: Seq<T>, count: int, filler: T) -> Seq<T> {
    Seq::new(
        count as nat,
        |i: int|
            if i < data.len() {
                data[i]
            } else {
                filler
            },
    )
}

fn fill<T: Copy>(data: &Vec<T>, count: usize, filler: T) -> (r: Vec<T>)
    ensures
        r@ == filled(data@, count as int, filler),
{
    let mut out: Vec<T> = Vec::new();
    let mut i: usize = 0;
    while i < count
        invariant
            i <= count,
            out@ =~= filled(data@, i as int, filler),
        decreases count - i,
    {
        if i < data.len() {
            out.push(data[i]);
        } else {
            out.push(filler);
        }
        i = i + 1;
    }
    out
}

/// The frame of one process: the local atoms, or with `ghosts` all atoms and a
/// flag for each.
pub open spec fn framed(
    frame: DumpFrame,
    atoms: Atom,
    ghosts: bool,
    step: usize,
    info: BoxInfo,
    scalar_data: Seq<(String, Vec<Scalar>)>,
    vector_data: Seq<(String, Vec<Vec3>)>,
) -> bool {
    let count: int = if ghosts {
        atoms.records().len() as int
    } else {
        atoms.nlocal as int
    };
    &&& frame.step == step
    &&& frame.box_info == info
    &&& frame.path_stem@.len() == 0
    &&& frame.tag@ == Seq::new(count as nat, |i: int| atoms.tag@[i] as u64)
    &&& frame.atom_type@ == Seq::new(count as nat, |i: int| atoms.atom_type@[i] as u64)
    &&& frame.pos@ == atoms.pos@.take(count)
    &&& frame.vel@ == atoms.vel@.take(count)
    &&& frame.force@ == atoms.force@.take(count)
    &&& frame.radius@ == atoms.cutoff_radius@.take(count)
    &&& frame.scalars@.len() == scalar_data.len()
    &&& forall|c: int|
        0 <= c < scalar_data.len() ==> (#[trigger] frame.scalars@[c]).0@ == scalar_data[c].0@
            && frame.scalars@[c].1@ == filled(scalar_data[c].1@, count, Scalar::zero())
    &&& frame.vectors@.len() == vector_data.len()
    &&& forall|c: int|
        0 <= c < vector_data.len() ==> (#[trigger] frame.vectors@[c]).0@ == vector_data[c].0@
            && frame.vectors@[c].1@ == filled(
            vector_data[c].1@,
            count,
            [Scalar::zero(), Scalar::zero(), Scalar::zero()],
        )
    &&& match frame.is_ghost {
        Some(g) => ghosts && g@ == Seq::new(count as nat, |i: int| i >= atoms.nlocal),
        None => !ghosts,
    }
}

/// Makes the frame of one process. The registered columns hold one value per
/// local atom; where a value is missing the frame holds zero.
pub fn build_frame(
    atoms: &Atom,
    ghosts: bool,
    step: usize,
    info: BoxInfo,
    scalar_data: &Vec<(String, Vec<Scalar>)>,
    vector_data: &Vec<(String, Vec<Vec3>)>,
) -> (r: DumpFrame)
    requires
        atoms.wf(),
        atoms.nlocal <= atoms.records().len(),
    ensures
        r.wf(),
        framed(r, *atoms, ghosts, step, info, scalar_data@, vector_data@),
{
    let nlocal: usize = atoms.nlocal as usize;
    let count: usize = if ghosts {
        atoms.len()
    } else {
        nlocal
    };
    let mut tag: Vec<u64> = Vec::new();
    let mut atom_type: Vec<u64> = Vec::new();
    let mut pos: Vec<Vec3> = Vec::new();
    let mut vel: Vec<Vec3> = Vec::new();
    let mut force: Vec<Vec3> = Vec::new();
    let mut radius: Vec<Scalar> = Vec::new();
    let mut flags: Vec<bool> = Vec::new();
    let mut i: usize = 0;
    while i < count
        invariant
            atoms.wf(),
            nlocal == atoms.nlocal,
            i <= count <= atoms.pos@.len(),
            tag@ =~= Seq::new(i as nat, |k: int| atoms.tag@[k] as u64),
            atom_type@ =~= Seq::new(i as nat, |k: int| atoms.atom_type@[k] as u64),
            pos@ =~= atoms.pos@.take(i as int),
            vel@ =~= atoms.vel@.take(i as int),
            force@ =~= atoms.force@.take(i as int),
            radius@ =~= atoms.cutoff_radius@.take(i as int),
            flags@ =~= Seq::new(
                if ghosts {
                    i as nat
                } else {
                    0nat
                },
                |k: int| k >= atoms.nlocal,
            ),
        decreases count - i,
    {
        tag.push(atoms.tag[i] as u64);
        atom_type.push(atoms.atom_type[i] as u64);
        pos.push(atoms.pos[i]);
        vel.push(atoms.vel[i]);
        force.push(atoms.force[i]);
        radius.push(atoms.cutoff_radius[i]);
        if ghosts {
            flags.push(i >= nlocal);
        }
        i = i + 1;
    }
    let mut scalars: Vec<(String, Vec<Scalar>)> = Vec::new();
    let mut c: usize = 0;
    while c < scalar_data.len()
        invariant
            c <= scalar_data@.len(),
            scalars@.len() == c,
            forall|j: int|
                0 <= j < c ==> (#[trigger] scalars@[j]).0@ == scalar_data@[j].0@ && scalars@[j].1@
                    == filled(scalar_data@[j].1@, count as int, Scalar::zero()),
        decreases scalar_data.len() - c,
    {
        scalars.push((scalar_data[c].0.clone(), fill(&scalar_data[c].1, count, Scalar::zero())));
        c = c + 1;
    }
    let mut vectors: Vec<(String, Vec<Vec3>)> = Vec::new();
    let nothing: Vec3 = [Scalar::zero(), Scalar::zero(), Scalar::zero()];
    c = 0;
    while c < vector_data.len()
        invariant
            c <= vector_data@.len(),
            vectors@.len() == c,
            forall|j: int|
                0 <= j < c ==> (#[trigger] vectors@[j]).0@ == vector_data@[j].0@ && vectors@[j].1@
                    == filled(vector_data@[j].1@, count as int, nothing),
        decreases vector_data.len() - c,
    {
        vectors.push((vector_data[c].0.clone(), fill(&vector_data[c].1, count, nothing)));
        c = c + 1;
    }
    let is_ghost: Option<Vec<bool>> = if ghosts {
        Some(flags)
    } else {
        None
    };
    DumpFrame {
        step,
        box_info: info,
        path_stem: String::new(),
        tag,
        atom_type,
        pos,
        vel,
        force,
        radius,
        scalars,
        vectors,
        is_ghost,
    }
}

/// A directory of the run: under the output directory where there is one.
pub open spec fn directory(base: Option<Seq<char>>, leaf: Seq<char>) -> Seq<char> {
    match base {
        Some(dir) => dir + seq!['/'] + leaf,
        None => leaf,
    }
}

/// The directory `leaf` of the run.
pub fn output_directory(base: Option<&str>, leaf: &str) -> (r: String)
    ensures
        r@ == directory(
            match base {
                Some(dir) => Some(dir@),
                None => None,
            },
            leaf@,
        ),
{
    match base {
        Some(dir) => {
            let mut out: String = dir.to_owned();
            proof {
                reveal_strlit("/");
                assert("/"@ =~= seq!['/']);
            }
            out.append("/");
            out.append(leaf);
            out
        },
        None => leaf.to_owned(),
    }
}

/// The path of a frame without its extension. A frame of one process carries
/// the number of the process.
pub open spec fn stem(dir: Seq<char>, step: nat, rank: Option<int>) -> Seq<char> {
    let common = dir + "/dump_"@ + digits(step);
    match rank {
        Some(r) => common + "_rank"@ + signed_digits(r),
        None => common,
    }
}

/// The path of a frame without its extension.
pub fn frame_stem(dir: &str, step: usize, rank: Option<i32>) -> (r: String)
    ensures
        r@ == stem(
            dir@,
            step as nat,
            match rank {
                Some(x) => Some(x as int),
                None => None,
            },
        ),
{
    let mut out: String = dir.to_owned();
    out.append("/dump_");
    let number: String = decimal(step as u64);
    out.append(number.as_str());
    if let Some(x) = rank {
        out.append("_rank");
        let which: String = signed_decimal(x);
        out.append(which.as_str());
    }
    out
}

/// What a process does when the frames of all processes become one.
#[derive(Clone, Copy, PartialEq, Eq, Structural, Debug)]
pub enum GatherRole {
    /// It holds every atom already.
    Alone,
    /// It receives from every other process, in order, and writes.
    Root,
    /// It sends its atoms to the first process.
    Sender,
}

/// The part of process `rank` of `size`.
pub fn gather_role(rank: i32, size: i32) -> (r: GatherRole)
    ensures
        r == (if size <= 1 {
            GatherRole::Alone
        } else if rank == 0 {
            GatherRole::Root
        } else {
            GatherRole::Sender
        }),
{
    if size <= 1 {
        GatherRole::Alone
    } else if rank == 0 {
        GatherRole::Root
    } else {
        GatherRole::Sender
    }
}

/// The warning for a format that nothing was registered for.
pub fn unknown_format_warning(format: &str, available: &Vec<String>) -> (r: String)
    ensures
        r@ == "WARNING: unknown dump format '"@ + format@
            + "' — no writer registered (available: "@ + joined_with(texts(available@), ", "@) + ")"@,
{
    let mut out: String = "WARNING: unknown dump format '".to_owned();
    out.append(format);
    out.append("' — no writer registered (available: ");
    let list: String = join(available, ", ");
    out.append(list.as_str());
    out.append(")");
    out
}

} // verus!

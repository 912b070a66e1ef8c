//! Checkpoints: what is saved of the atoms, in which file, and how a run is
//! taken up again.

use crate::atom::Atom;
use crate::atom_data::{
    packed_column, read_chain, readable_chain, AtomData, AtomDataRegistry, Entry,
};
use crate::scalar::{is_arithmetic, over, quotient, Op, Scalar, Vec3};
use crate::text::{
    count_value, decimal, digit_value, digits, digits_round_trip, parse_count, signed_decimal,
    signed_digits,
};
use vstd::prelude::*;
use vstd::string::*;

verus! {

/// How often and in which form checkpoints are written, and whether the run
/// starts from one.
pub struct RestartConfig {
    pub interval: usize,
    pub format: String,
    pub read: bool,
}

impl Default for RestartConfig {
    fn default() -> (r: RestartConfig)
        ensures
            r.interval == 0,
            r.format@ == "bincode"@,
            !r.read,
    {
        RestartConfig { interval: 0, format: "bincode".to_owned(), read: false }
    }
}

/// The local atoms of one process and the extension data that goes with them.
pub struct RestartData {
    pub natoms: u64,
    pub total_cycle: usize,
    pub dt: Scalar,
    pub tag: Vec<u32>,
    pub atom_type: Vec<u32>,
    pub pos_x: Vec<Scalar>,
    pub pos_y: Vec<Scalar>,
    pub pos_z: Vec<Scalar>,
    pub vel_x: Vec<Scalar>,
    pub vel_y: Vec<Scalar>,
    pub vel_z: Vec<Scalar>,
    pub force_x: Vec<Scalar>,
    pub force_y: Vec<Scalar>,
    pub force_z: Vec<Scalar>,
    pub mass: Vec<Scalar>,
    pub cutoff_radius: Vec<Scalar>,
    pub atom_data_buffers: Vec<Vec<Scalar>>,
}

/// Component `d` of the first `n` vectors.
pub open spec fn component(v: Seq<Vec3>, d: int, n: int) -> Seq<Scalar> {
    Seq::new(n as nat, |i: int| v[i][d])
}

fn take_component(v: &Vec<Vec3>, d: usize, n: usize) -> (r: Vec<Scalar>)
    requires
        n <= v@.len(),
        d < 3,
    ensures
        r@ == component(v@, d as int, n as int),
{
    let mut out: Vec<Scalar> = Vec::new();
    let mut i: usize = 0;
    while i < n
        invariant
            i <= n <= v@.len(),
            d < 3,
            out@ =~= component(v@, d as int, i as int),
        decreases n - i,
    {
        out.push(v[i][d]);
        i = i + 1;
    }
    out
}

fn take_first<T: Copy>(v: &Vec<T>, n: usize) -> (r: Vec<T>)
    requires
        n <= v@.len(),
    ensures
        r@ == v@.take(n as int),
{
    let mut out: Vec<T> = Vec::new();
    let mut i: usize = 0;
    while i < n
        invariant
            i <= n <= v@.len(),
            out@ =~= v@.take(i as int),
        decreases n - i,
    {
        out.push(v[i]);
        i = i + 1;
    }
    out
}

impl RestartData {
    /// All columns have an entry for each atom.
    pub open spec fn even(&self) -> bool {
        let n = self.tag@.len();
        &&& self.atom_type@.len() == n
        &&& self.pos_x@.len() == n
        &&& self.pos_y@.len() == n
        &&& self.pos_z@.len() == n
        &&& self.vel_x@.len() == n
        &&& self.vel_y@.len() == n
        &&& self.vel_z@.len() == n
        &&& self.force_x@.len() == n
        &&& self.force_y@.len() == n
        &&& self.force_z@.len() == n
        &&& self.mass@.len() == n
        &&& self.cutoff_radius@.len() == n
    }

    /// What is saved of the atoms at `step`.
    pub open spec fn saves<D: AtomData>(
        &self,
        atoms: Atom,
        registry: AtomDataRegistry<D>,
        step: usize,
    ) -> bool {
        let n = atoms.nlocal as int;
        &&& self.natoms == atoms.natoms
        &&& self.total_cycle == step
        &&& self.dt == atoms.dt
        &&& self.tag@ == atoms.tag@.take(n)
        &&& self.atom_type@ == atoms.atom_type@.take(n)
        &&& self.pos_x@ == component(atoms.pos@, 0, n)
        &&& self.pos_y@ == component(atoms.pos@, 1, n)
        &&& self.pos_z@ == component(atoms.pos@, 2, n)
        &&& self.vel_x@ == component(atoms.vel@, 0, n)
        &&& self.vel_y@ == component(atoms.vel@, 1, n)
        &&& self.vel_z@ == component(atoms.vel@, 2, n)
        &&& self.force_x@ == component(atoms.force@, 0, n)
        &&& self.force_y@ == component(atoms.force@, 1, n)
        &&& self.force_z@ == component(atoms.force@, 2, n)
        &&& self.mass@ == atoms.mass@.take(n)
        &&& self.cutoff_radius@ == atoms.cutoff_radius@.take(n)
        &&& self.atom_data_buffers@.len() == registry.stores@.len()
        &&& forall|k: int|
            0 <= k < registry.stores@.len() ==> (#[trigger] self.atom_data_buffers@[k])@
                == packed_column(registry.stores@[k].data, n)
    }

    /// Takes down the local atoms and their extension data at `step`.
    pub fn from_atoms<D: AtomData>(atoms: &Atom, registry: &AtomDataRegistry<D>, step: usize) -> (r:
        RestartData)
        requires
            atoms.wf(),
            atoms.nlocal <= atoms.records().len(),
            registry.wf(),
            forall|i: int| 0 <= i < atoms.nlocal ==> #[trigger] registry.accepts(i),
        ensures
            r.saves(*atoms, *registry, step),
    {
        let n: usize = atoms.nlocal as usize;
        RestartData {
            natoms: atoms.natoms,
            total_cycle: step,
            dt: atoms.dt,
            tag: take_first(&atoms.tag, n),
            atom_type: take_first(&atoms.atom_type, n),
            pos_x: take_component(&atoms.pos, 0, n),
            pos_y: take_component(&atoms.pos, 1, n),
            pos_z: take_component(&atoms.pos, 2, n),
            vel_x: take_component(&atoms.vel, 0, n),
            vel_y: take_component(&atoms.vel, 1, n),
            vel_z: take_component(&atoms.vel, 2, n),
            force_x: take_component(&atoms.force, 0, n),
            force_y: take_component(&atoms.force, 1, n),
            force_z: take_component(&atoms.force, 2, n),
            mass: take_first(&atoms.mass, n),
            cutoff_radius: take_first(&atoms.cutoff_radius, n),
            atom_data_buffers: registry.pack_all_for_restart(n),
        }
    }
}

pub open spec fn least_nat(a: nat, b: nat) -> nat {
    if a <= b {
        a
    } else {
        b
    }
}

/// The vectors with these components: as many as there are of the rarest
/// component.
pub open spec fn zipped(x: Seq<Scalar>, y: Seq<Scalar>, z: Seq<Scalar>) -> Seq<Vec3> {
    Seq::new(least_nat(least_nat(x.len(), y.len()), z.len()), |i: int| [x[i], y[i], z[i]])
}

fn zip(x: &Vec<Scalar>, y: &Vec<Scalar>, z: &Vec<Scalar>) -> (r: Vec<Vec3>)
    ensures
        r@ == zipped(x@, y@, z@),
{
    let mut out: Vec<Vec3> = Vec::new();
    let mut i: usize = 0;
    while i < x.len() && i < y.len() && i < z.len()
        invariant
            i <= x@.len(),
            i <= y@.len(),
            i <= z@.len(),
            out@ =~= Seq::new(i as nat, |k: int| [x@[k], y@[k], z@[k]]),
        decreases x.len() - i,
    {
        out.push([x[i], y[i], z[i]]);
        i = i + 1;
    }
    assert(out@ =~= zipped(x@, y@, z@));
    out
}

/// `new` is `before` with the saved atoms in place of all atoms: no ghosts, and
/// the inverse masses computed anew. The image flags are not saved and begin anew.
pub open spec fn restored<F: Fn(Op, Scalar, Scalar, Scalar) -> Scalar>(
    ar: F,
    data: RestartData,
    before: Atom,
    new: Atom,
) -> bool {
    let n = data.tag@.len();
    &&& new.natoms == data.natoms
    &&& new.nlocal == n as u32
    &&& new.nghost == 0
    &&& new.ntypes == before.ntypes
    &&& new.dt == data.dt
    &&& new.tag == data.tag
    &&& new.atom_type == data.atom_type
    &&& new.origin_index@ == Seq::new(n, |i: int| 0i32)
    &&& new.is_ghost@ == Seq::new(n, |i: int| false)
    &&& new.pos@ == zipped(data.pos_x@, data.pos_y@, data.pos_z@)
    &&& new.vel@ == zipped(data.vel_x@, data.vel_y@, data.vel_z@)
    &&& new.force@ == zipped(data.force_x@, data.force_y@, data.force_z@)
    &&& new.mass == data.mass
    &&& new.inv_mass@ == Seq::new(
        data.mass@.len(),
        |i: int| quotient(ar, Scalar::one(), data.mass@[i]),
    )
    &&& new.cutoff_radius == data.cutoff_radius
    &&& new.image@ == Seq::new(n, |i: int| [0i32, 0i32, 0i32])
}

/// Takes up a run: puts the saved atoms in place of all atoms and the saved
/// extension data in place of what its stores held, and returns the step of the
/// checkpoint. A store that nothing was saved of stays as it is.
pub fn restore<D: AtomData, F: Fn(Op, Scalar, Scalar, Scalar) -> Scalar>(
    data: RestartData,
    atoms: &mut Atom,
    registry: &mut AtomDataRegistry<D>,
    ar: &F,
) -> (r: usize)
    requires
        is_arithmetic(*ar),
        old(registry).wf(),
        forall|k: int|
            0 <= k < old(registry).stores@.len() && k < data.atom_data_buffers@.len()
                ==> readable_chain::<D>(
                (#[trigger] old(registry).stores@[k]).data.shape(),
                data.atom_data_buffers@[k]@,
            ),
    ensures
        r == data.total_cycle,
        restored(*ar, data, *old(atoms), *final(atoms)),
        data.even() ==> final(atoms).wf() && final(atoms).records().len() == data.tag@.len(),
        final(registry).wf(),
        final(registry).same_stores(old(registry)),
        forall|k: int|
            0 <= k < old(registry).stores@.len() ==> (#[trigger] final(
                registry).stores@[k]).data.rows() == if k < data.atom_data_buffers@.len() {
                read_chain::<D>(
                    old(registry).stores@[k].data.shape(),
                    data.atom_data_buffers@[k]@,
                )
            } else {
                old(registry).stores@[k].data.rows()
            },
{
    let n: usize = data.tag.len();
    let mut origin_index: Vec<i32> = Vec::new();
    let mut is_ghost: Vec<bool> = Vec::new();
    let mut image: Vec<[i32; 3]> = Vec::new();
    let mut i: usize = 0;
    while i < n
        invariant
            i <= n,
            origin_index@ =~= Seq::new(i as nat, |k: int| 0i32),
            is_ghost@ =~= Seq::new(i as nat, |k: int| false),
            image@ =~= Seq::new(i as nat, |k: int| [0i32, 0i32, 0i32]),
        decreases n - i,
    {
        origin_index.push(0);
        is_ghost.push(false);
        image.push([0, 0, 0]);
        i = i + 1;
    }
    let mut inv_mass: Vec<Scalar> = Vec::new();
    i = 0;
    while i < data.mass.len()
        invariant
            is_arithmetic(*ar),
            i <= data.mass@.len(),
            inv_mass@ =~= Seq::new(
                i as nat,
                |k: int| quotient(*ar, Scalar::one(), data.mass@[k]),
            ),
        decreases data.mass.len() - i,
    {
        inv_mass.push(over(ar, Scalar::one(), data.mass[i]));
        i = i + 1;
    }
    atoms.natoms = data.natoms;
    atoms.nlocal = n as u32;
    atoms.nghost = 0;
    atoms.dt = data.dt;
    atoms.origin_index = origin_index;
    atoms.is_ghost = is_ghost;
    atoms.image = image;
    atoms.pos = zip(&data.pos_x, &data.pos_y, &data.pos_z);
    atoms.vel = zip(&data.vel_x, &data.vel_y, &data.vel_z);
    atoms.force = zip(&data.force_x, &data.force_y, &data.force_z);
    atoms.inv_mass = inv_mass;
    registry.clear_for_restart(data.atom_data_buffers.len());
    let ghost cleared: Seq<Entry<D>> = registry.stores@;
    registry.unpack_all_from_restart(&data.atom_data_buffers);
    proof {
        assert forall|k: int|
            0 <= k < cleared.len() && k < data.atom_data_buffers@.len() implies (
        #[trigger] registry.stores@[k]).data.rows() == read_chain::<D>(
            old(registry).stores@[k].data.shape(),
            data.atom_data_buffers@[k]@,
        ) by {
            let read: Seq<Seq<Scalar>> = read_chain::<D>(
                cleared[k].data.shape(),
                data.atom_data_buffers@[k]@,
            );
            assert(Seq::<Seq<Scalar>>::empty() + read =~= read);
        }
    }
    let step: usize = data.total_cycle;
    atoms.tag = data.tag;
    atoms.atom_type = data.atom_type;
    atoms.mass = data.mass;
    atoms.cutoff_radius = data.cutoff_radius;
    step
}

/// A run is taken up where it was saved: the local atoms are the saved ones in
/// the saved order, all arrays have an entry for each of them, and what was saved
/// of every store reads back as the rows of those atoms.
pub proof fn saved_atoms_return<D: AtomData, F: Fn(Op, Scalar, Scalar, Scalar) -> Scalar>(
    ar: F,
    data: RestartData,
    atoms: Atom,
    registry: AtomDataRegistry<D>,
    step: usize,
    before: Atom,
    new: Atom,
)
    requires
        atoms.wf(),
        atoms.nlocal <= atoms.records().len(),
        registry.wf(),
        forall|k: int|
            0 <= k < registry.stores@.len() ==> atoms.nlocal <= (#[trigger] registry.stores@[k]).data.rows().len(),
        forall|k: int, i: int|
            0 <= k < registry.stores@.len() && 0 <= i < atoms.nlocal
                ==> (#[trigger] registry.stores@[k].data.rows()[i]).len() > 0,
        data.saves(atoms, registry, step),
        restored(ar, data, before, new),
    ensures
        new.wf(),
        new.records().len() == atoms.nlocal,
        new.natoms == atoms.natoms,
        new.nlocal == atoms.nlocal,
        new.nghost == 0,
        new.dt == atoms.dt,
        new.tag@ == atoms.tag@.take(atoms.nlocal as int),
        new.atom_type@ == atoms.atom_type@.take(atoms.nlocal as int),
        new.pos@ == atoms.pos@.take(atoms.nlocal as int),
        new.vel@ == atoms.vel@.take(atoms.nlocal as int),
        new.force@ == atoms.force@.take(atoms.nlocal as int),
        new.mass@ == atoms.mass@.take(atoms.nlocal as int),
        new.cutoff_radius@ == atoms.cutoff_radius@.take(atoms.nlocal as int),
        forall|k: int|
            0 <= k < registry.stores@.len() ==> {
                let d = (#[trigger] registry.stores@[k]).data;
                &&& readable_chain::<D>(d.shape(), data.atom_data_buffers@[k]@)
                &&& read_chain::<D>(d.shape(), data.atom_data_buffers@[k]@) == d.rows().take(
                    atoms.nlocal as int,
                )
            },
{
    let n: int = atoms.nlocal as int;
    lemma_zipped(atoms.pos@, n);
    lemma_zipped(atoms.vel@, n);
    lemma_zipped(atoms.force@, n);
    assert forall|k: int| 0 <= k < registry.stores@.len() implies {
        let d = (#[trigger] registry.stores@[k]).data;
        &&& readable_chain::<D>(d.shape(), data.atom_data_buffers@[k]@)
        &&& read_chain::<D>(d.shape(), data.atom_data_buffers@[k]@) == d.rows().take(n)
    } by {
        let d: D = registry.stores@[k].data;
        crate::transport::restart_round_trip(d, n, 0);
        assert(packed_column(d, 0).len() == 0);
        assert(packed_column(d, n).skip(0) =~= packed_column(d, n));
        assert(d.rows().subrange(0, n) =~= d.rows().take(n));
        assert(data.atom_data_buffers@[k]@ == packed_column(d, n));
    }
}

proof fn lemma_zipped(v: Seq<Vec3>, n: int)
    requires
        0 <= n <= v.len(),
    ensures
        zipped(component(v, 0, n), component(v, 1, n), component(v, 2, n)) == v.take(n),
{
    let z: Seq<Vec3> = zipped(component(v, 0, n), component(v, 1, n), component(v, 2, n));
    assert forall|i: int| 0 <= i < n implies z[i] == v.take(n)[i] by {
        assert(z[i] =~= v[i]);
    }
    assert(z =~= v.take(n));
}


/// The extension of the files in a format.
pub open spec fn extension(format: Seq<char>) -> Seq<char> {
    if format == "json"@ {
        "json"@
    } else {
        "bin"@
    }
}

/// The extension of the files in a format: every format but JSON is binary.
pub fn restart_extension(format: &str) -> (r: &'static str)
    ensures
        r@ == extension(format@),
{
    if format.to_owned() == "json".to_owned() {
        "json"
    } else {
        "bin"
    }
}

/// The end of the name of every checkpoint of a process.
pub open spec fn file_suffix(rank: int, ext: Seq<char>) -> Seq<char> {
    "_rank"@ + signed_digits(rank) + "."@ + ext
}

/// The name of a checkpoint in its directory.
pub open spec fn file_name(step: nat, rank: int, ext: Seq<char>) -> Seq<char> {
    "restart_"@ + digits(step) + file_suffix(rank, ext)
}

fn suffix_text(rank: i32, ext: &str) -> (r: String)
    ensures
        r@ == file_suffix(rank as int, ext@),
{
    let mut out: String = "_rank".to_owned();
    let which: String = signed_decimal(rank);
    out.append(which.as_str());
    out.append(".");
    out.append(ext);
    out
}

/// The path of a checkpoint.
pub fn restart_path(dir: &str, step: usize, rank: i32, ext: &str) -> (r: String)
    ensures
        r@ == dir@ + "/"@ + file_name(step as nat, rank as int, ext@),
{
    let mut out: String = dir.to_owned();
    out.append("/");
    out.append("restart_");
    let number: String = decimal(step as u64);
    out.append(number.as_str());
    let suffix: String = suffix_text(rank, ext);
    out.append(suffix.as_str());
    assert(out@ =~= dir@ + "/"@ + file_name(step as nat, rank as int, ext@));
    out
}

/// `name` begins and ends as the checkpoints do.
pub open spec fn has_frame(name: Seq<char>, suffix: Seq<char>) -> bool {
    let head = "restart_"@;
    &&& name.len() >= head.len()
    &&& name.take(head.len() as int) == head
    &&& name.len() >= suffix.len()
    &&& name.skip(name.len() - suffix.len()) == suffix
}

/// The beginning and the end of `name` do not overlap.
pub open spec fn frame_fits(name: Seq<char>, suffix: Seq<char>) -> bool {
    has_frame(name, suffix) ==> "restart_"@.len() + suffix.len() <= name.len()
}

/// The step of the checkpoint with this name; `None` where it is none.
pub open spec fn file_step(name: Seq<char>, suffix: Seq<char>) -> Option<int> {
    if has_frame(name, suffix) {
        match count_value(name.subrange("restart_"@.len() as int, name.len() - suffix.len())) {
            Some(n) => if n <= usize::MAX {
                Some(n)
            } else {
                None
            },
            None => None,
        }
    } else {
        None
    }
}

fn step_of(name: &str, suffix: &str) -> (r: Option<usize>)
    requires
        frame_fits(name@, suffix@),
    ensures
        match r {
            Some(step) => file_step(name@, suffix@) == Some(step as int),
            None => file_step(name@, suffix@) is None,
        },
{
    let head: &str = "restart_";
    let len: usize = name.unicode_len();
    let front: usize = head.unicode_len();
    let back: usize = suffix.unicode_len();
    if len < front || len < back {
        return None;
    }
    proof {
        assert(name@.subrange(0, front as int) =~= name@.take(front as int));
        assert(name@.subrange(len - back, len as int) =~= name@.skip(len - back));
    }
    if name.substring_char(0, front).to_owned() != head.to_owned() {
        return None;
    }
    if name.substring_char(len - back, len).to_owned() != suffix.to_owned() {
        return None;
    }
    parse_count(name.substring_char(front, len - back))
}

/// The greatest step among the checkpoints of a process in a directory listing.
pub fn latest_restart(names: &Vec<String>, rank: i32, ext: &str) -> (r: Option<usize>)
    requires
        forall|k: int|
            0 <= k < names@.len() ==> frame_fits(
                (#[trigger] names@[k])@,
                file_suffix(rank as int, ext@),
            ),
    ensures
        ({
            let suffix = file_suffix(rank as int, ext@);
            match r {
                Some(step) => {
                    &&& exists|k: int|
                        0 <= k < names@.len() && file_step((#[trigger] names@[k])@, suffix) == Some(
                            step as int,
                        )
                    &&& forall|k: int|
                        0 <= k < names@.len() ==> (file_step((#[trigger] names@[k])@, suffix) matches Some(
                            s,
                        ) ==> s <= step)
                },
                None => forall|k: int|
                    0 <= k < names@.len() ==> file_step((#[trigger] names@[k])@, suffix) is None,
            }
        }),
{
    let suffix: String = suffix_text(rank, ext);
    let mut latest: Option<usize> = None;
    let mut i: usize = 0;
    while i < names.len()
        invariant
            suffix@ == file_suffix(rank as int, ext@),
            forall|k: int|
                0 <= k < names@.len() ==> frame_fits(
                    (#[trigger] names@[k])@,
                    file_suffix(rank as int, ext@),
                ),
            i <= names@.len(),
            match latest {
                Some(step) => {
                    &&& exists|k: int|
                        0 <= k < i && file_step((#[trigger] names@[k])@, suffix@) == Some(step as int)
                    &&& forall|k: int|
                        0 <= k < i ==> (file_step((#[trigger] names@[k])@, suffix@) matches Some(s)
                            ==> s <= step)
                },
                None => forall|k: int|
                    0 <= k < i ==> file_step((#[trigger] names@[k])@, suffix@) is None,
            },
        decreases names.len() - i,
    {
        if let Some(step) = step_of(names[i].as_str(), suffix.as_str()) {
            let newer: bool = match latest {
                Some(prev) => step > prev,
                None => true,
            };
            if newer {
                latest = Some(step);
            }
        }
        i = i + 1;
    }
    latest
}

/// A checkpoint is found again: its name gives back the step, for every process
/// and format.
pub proof fn written_checkpoint_is_found(step: usize, rank: int, ext: Seq<char>)
    ensures
        frame_fits(file_name(step as nat, rank, ext), file_suffix(rank, ext)),
        file_step(file_name(step as nat, rank, ext), file_suffix(rank, ext)) == Some(step as int),
{
    let name: Seq<char> = file_name(step as nat, rank, ext);
    let suffix: Seq<char> = file_suffix(rank, ext);
    let head: Seq<char> = "restart_"@;
    digits_round_trip(step as nat);
    assert(name.take(head.len() as int) =~= head);
    assert(name.skip(name.len() - suffix.len()) =~= suffix);
    assert(name.subrange(head.len() as int, name.len() - suffix.len()) =~= digits(step as nat));
}

proof fn lemma_digit_chars(n: nat, i: int)
    requires
        0 <= i < digits(n).len(),
    ensures
        digit_value(digits(n)[i]) is Some,
    decreases n,
{
    if n >= 10 {
        if i < digits(n).len() - 1 {
            lemma_digit_chars(n / 10, i);
        }
    }
}

/// The text of a number holds digits and a sign only.
proof fn lemma_signed_chars(n: int, i: int)
    requires
        0 <= i < signed_digits(n).len(),
    ensures
        signed_digits(n)[i] != 'k',
{
    if n < 0 {
        if i > 0 {
            lemma_digit_chars((-n) as nat, i - 1);
        }
    } else {
        lemma_digit_chars(n as nat, i);
    }
}

proof fn lemma_signed_distinct(a: int, b: int)
    requires
        signed_digits(a) == signed_digits(b),
    ensures
        a == b,
{
    digits_round_trip(
        if a < 0 {
            (-a) as nat
        } else {
            a as nat
        },
    );
    digits_round_trip(
        if b < 0 {
            (-b) as nat
        } else {
            b as nat
        },
    );
    if a < 0 {
        assert(signed_digits(a)[0] == '-');
        assert(signed_digits(a).skip(1) =~= digits((-a) as nat));
        if b >= 0 {
            lemma_digit_chars(b as nat, 0);
        } else {
            assert(signed_digits(b).skip(1) =~= digits((-b) as nat));
        }
    } else if b < 0 {
        assert(signed_digits(b)[0] == '-');
        lemma_digit_chars(a as nat, 0);
    }
}

/// Each process takes up its own checkpoint: the name of another process's
/// checkpoint gives no step.
pub proof fn checkpoints_are_told_apart(step: usize, rank: int, other: int, ext: Seq<char>)
    requires
        rank != other,
    ensures
        file_step(file_name(step as nat, other, ext), file_suffix(rank, ext)) is None,
{
    let name: Seq<char> = file_name(step as nat, other, ext);
    let suffix: Seq<char> = file_suffix(rank, ext);
    let a: Seq<char> = signed_digits(rank);
    let b: Seq<char> = signed_digits(other);
    reveal_strlit("_rank");
    reveal_strlit(".");
    reveal_strlit("restart_");
    let front: int = ("restart_"@.len() + digits(step as nat).len()) as int;
    if has_frame(name, suffix) {
        let tail: Seq<char> = name.skip(name.len() - suffix.len());
        assert(tail == suffix);
        if a.len() == b.len() {
            assert(suffix.subrange(5, 5 + a.len() as int) =~= a);
            assert(tail.subrange(5, 5 + a.len() as int) =~= b);
            lemma_signed_distinct(rank, other);
        } else if a.len() < b.len() {
            let i: int = b.len() - a.len() - 1;
            lemma_signed_chars(other, i);
            assert(suffix[4] == 'k');
            assert(tail[4] == b[i]);
        } else {
            let i: int = a.len() - b.len() - 1;
            lemma_signed_chars(rank, i);
            assert(suffix[5 + i] == a[i]);
            assert(name[front + 4] == 'k');
            assert(tail[5 + i] == name[front + 4]);
        }
    }
}

} // verus!

//! Snapshots for ParaView: the atoms as points of an XML poly-data file.

use crate::atom::Atom;
use crate::scalar::{is_arithmetic, Op, Scalar, Vec3};
use crate::text::{
    decimal, digits, file_text, is_rendering, render, rendered, signed_decimal, signed_digits, texts,
    write_lines, Style,
};
use crate::transport::{flat, joined};
use vstd::prelude::*;
use vstd::string::*;

verus! {

/// How often ParaView files are written.
pub struct VtpConfig {
    pub interval: usize,
}

impl Default for VtpConfig {
    fn default() -> (r: VtpConfig)
        ensures
            r.interval == 0,
    {
        VtpConfig { interval: 0 }
    }
}

/// Three numbers with spaces between them.
pub open spec fn triple_text<R: Fn(Style, Scalar) -> String>(show: R, v: Vec3) -> Seq<char> {
    rendered(show, Style::Plain, v[0]) + " "@ + rendered(show, Style::Plain, v[1]) + " "@ + rendered(
        show,
        Style::Plain,
        v[2],
    )
}

fn write_triple<R: Fn(Style, Scalar) -> String>(show: &R, v: Vec3) -> (r: String)
    requires
        is_rendering(*show),
    ensures
        r@ == triple_text(*show, v),
{
    let mut out: String = render(show, Style::Plain, v[0]);
    out.append(" ");
    let y: String = render(show, Style::Plain, v[1]);
    out.append(y.as_str());
    out.append(" ");
    let z: String = render(show, Style::Plain, v[2]);
    out.append(z.as_str());
    out
}

/// An array with one value on each line.
pub open spec fn data_array(kind: Seq<char>, name: Seq<char>, values: Seq<Seq<char>>) -> Seq<char> {
    "<DataArray type=\""@ + kind + "\" Name=\""@ + name + "\" format=\"ascii\">\n"@ + file_text(values)
        + "</DataArray>"@
}

/// Appends an array with one value on each line.
fn write_vtp_data_array(out: &mut String, kind: &str, name: &str, values: &Vec<String>)
    ensures
        final(out)@ == old(out)@ + data_array(kind@, name@, texts(values@)),
{
    let ghost start: Seq<char> = out@;
    out.append("<DataArray type=\"");
    out.append(kind);
    out.append("\" Name=\"");
    out.append(name);
    out.append("\" format=\"ascii\">\n");
    let lines: String = write_lines(values);
    out.append(lines.as_str());
    out.append("</DataArray>");
    assert(out@ =~= start + data_array(kind@, name@, texts(values@)));
}

/// An array with three numbers on each line.
pub open spec fn vector_array(name: Seq<char>, values: Seq<Seq<char>>) -> Seq<char> {
    "<DataArray type=\"Float32\" Name=\""@ + name
        + "\" NumberOfComponents=\"3\" format=\"ascii\">\n"@ + file_text(values) + "</DataArray>"@
}

/// The lines of a scalar column for `n` atoms: zero where a value is missing.
pub open spec fn scalar_lines<R: Fn(Style, Scalar) -> String>(show: R, data: Seq<Scalar>, n: nat) -> Seq<Seq<char>> {
    Seq::new(
        n,
        |i: int|
            if i < data.len() {
                rendered(show, Style::Plain, data[i])
            } else {
                "0"@
            },
    )
}

/// The lines of a vector column for `n` atoms: zeros where a value is missing.
pub open spec fn vector_lines<R: Fn(Style, Scalar) -> String>(show: R, data: Seq<Vec3>, n: nat) -> Seq<Seq<char>> {
    Seq::new(
        n,
        |i: int|
            if i < data.len() {
                triple_text(show, data[i])
            } else {
                "0 0 0"@
            },
    )
}

fn list_scalars<R: Fn(Style, Scalar) -> String>(show: &R, data: &Vec<Scalar>, n: usize) -> (r: Vec<
    String,
>)
    requires
        is_rendering(*show),
    ensures
        texts(r@) == scalar_lines(*show, data@, n as nat),
{
    let mut lines: Vec<String> = Vec::new();
    let mut i: usize = 0;
    while i < n
        invariant
            is_rendering(*show),
            i <= n,
            lines@.len() == i,
            forall|k: int|
                0 <= k < i ==> (#[trigger] lines@[k])@ == scalar_lines(*show, data@, n as nat)[k],
        decreases n - i,
    {
        if i < data.len() {
            lines.push(render(show, Style::Plain, data[i]));
        } else {
            lines.push("0".to_owned());
        }
        i = i + 1;
    }
    assert(texts(lines@) =~= scalar_lines(*show, data@, n as nat));
    lines
}

fn list_vectors<R: Fn(Style, Scalar) -> String>(show: &R, data: &Vec<Vec3>, n: usize) -> (r: Vec<String>)
    requires
        is_rendering(*show),
    ensures
        texts(r@) == vector_lines(*show, data@, n as nat),
{
    let mut lines: Vec<String> = Vec::new();
    let mut i: usize = 0;
    while i < n
        invariant
            is_rendering(*show),
            i <= n,
            lines@.len() == i,
            forall|k: int|
                0 <= k < i ==> (#[trigger] lines@[k])@ == vector_lines(*show, data@, n as nat)[k],
        decreases n - i,
    {
        if i < data.len() {
            lines.push(write_triple(show, data[i]));
        } else {
            lines.push("0 0 0".to_owned());
        }
        i = i + 1;
    }
    assert(texts(lines@) =~= vector_lines(*show, data@, n as nat));
    lines
}

/// The speeds of the atoms, one on each line.
pub open spec fn speed_lines<
    F: Fn(Op, Scalar, Scalar, Scalar) -> Scalar,
    R: Fn(Style, Scalar) -> String,
>(ar: F, show: R, vel: Seq<Vec3>) -> Seq<Seq<char>> {
    Seq::new(vel.len(), |i: int| rendered(show, Style::Plain, crate::vec3::norm_of(ar, vel[i])))
}

/// 1 for a ghost, 0 for a local atom, one on each line.
pub open spec fn ghost_lines(nlocal: int, n: nat) -> Seq<Seq<char>> {
    Seq::new(
        n,
        |i: int|
            if i >= nlocal {
                "1"@
            } else {
                "0"@
            },
    )
}

/// The arrays that every file holds.
pub open spec fn fixed_arrays<
    F: Fn(Op, Scalar, Scalar, Scalar) -> Scalar,
    R: Fn(Style, Scalar) -> String,
>(ar: F, show: R, atoms: Atom) -> Seq<char> {
    let n = atoms.records().len();
    data_array("Float32"@, "Radius"@, scalar_lines(show, atoms.cutoff_radius@, n)) + data_array(
        "Float32"@,
        "Vel_Mag"@,
        speed_lines(ar, show, atoms.vel@),
    ) + data_array("Int32"@, "IsGhost"@, ghost_lines(atoms.nlocal as int, n))
}

/// The arrays of the registered scalar columns.
pub open spec fn scalar_arrays<R: Fn(Style, Scalar) -> String>(
    show: R,
    columns: Seq<(String, Vec<Scalar>)>,
    n: nat,
) -> Seq<Seq<char>> {
    Seq::new(
        columns.len(),
        |c: int| data_array("Float32"@, columns[c].0@, scalar_lines(show, columns[c].1@, n)),
    )
}

/// The arrays of the registered vector columns.
pub open spec fn vector_arrays<R: Fn(Style, Scalar) -> String>(
    show: R,
    columns: Seq<(String, Vec<Vec3>)>,
    n: nat,
) -> Seq<Seq<char>> {
    Seq::new(
        columns.len(),
        |c: int| vector_array(columns[c].0@, vector_lines(show, columns[c].1@, n)),
    )
}

/// The text in front of the per-point data: the number of points and their
/// positions.
pub open spec fn points_text<R: Fn(Style, Scalar) -> String>(show: R, atoms: Atom) -> Seq<char> {
    "<?xml version=\"1.0\" encoding=\"UTF-8\"?>\n<VTKFile type=\"PolyData\" version=\"0.1\" byte_order=\"LittleEndian\">\n<PolyData>\n"@
        + "<Piece NumberOfPoints=\""@ + digits(atoms.records().len()) + "\">\n"@
        + "<Points><DataArray type=\"Float32\" NumberOfComponents=\"3\" format=\"ascii\">"@
        + file_text(vector_lines(show, atoms.pos@, atoms.records().len()))
        + "</DataArray>\n</Points>\n"@ + "<PointData Scalars=\"\" Vectors=\"\">\n"@
}

/// The whole file.
pub open spec fn vtp_file<
    F: Fn(Op, Scalar, Scalar, Scalar) -> Scalar,
    R: Fn(Style, Scalar) -> String,
>(
    ar: F,
    show: R,
    atoms: Atom,
    scalars: Seq<(String, Vec<Scalar>)>,
    vectors: Seq<(String, Vec<Vec3>)>,
) -> Seq<char> {
    let n = atoms.records().len();
    points_text(show, atoms) + fixed_arrays(ar, show, atoms) + joined(
        scalar_arrays(show, scalars, n),
    ) + joined(vector_arrays(show, vectors, n))
        + "</PointData>\n</Piece>\n</PolyData>\n</VTKFile>\n"@
}

fn list_speeds<F: Fn(Op, Scalar, Scalar, Scalar) -> Scalar, R: Fn(Style, Scalar) -> String>(
    vel: &Vec<Vec3>,
    ar: &F,
    show: &R,
) -> (r: Vec<String>)
    requires
        is_arithmetic(*ar),
        is_rendering(*show),
    ensures
        texts(r@) == speed_lines(*ar, *show, vel@),
{
    let mut lines: Vec<String> = Vec::new();
    let mut i: usize = 0;
    while i < vel.len()
        invariant
            is_arithmetic(*ar),
            is_rendering(*show),
            i <= vel@.len(),
            lines@.len() == i,
            forall|k: int| 0 <= k < i ==> (#[trigger] lines@[k])@ == speed_lines(*ar, *show, vel@)[k],
        decreases vel.len() - i,
    {
        lines.push(render(show, Style::Plain, crate::vec3::norm(vel[i], ar)));
        i = i + 1;
    }
    assert(texts(lines@) =~= speed_lines(*ar, *show, vel@));
    lines
}

fn list_ghosts(nlocal: usize, n: usize) -> (r: Vec<String>)
    ensures
        texts(r@) == ghost_lines(nlocal as int, n as nat),
{
    let mut lines: Vec<String> = Vec::new();
    let mut i: usize = 0;
    while i < n
        invariant
            i <= n,
            lines@.len() == i,
            forall|k: int|
                0 <= k < i ==> (#[trigger] lines@[k])@ == ghost_lines(nlocal as int, n as nat)[k],
        decreases n - i,
    {
        if i >= nlocal {
            lines.push("1".to_owned());
        } else {
            lines.push("0".to_owned());
        }
        i = i + 1;
    }
    assert(texts(lines@) =~= ghost_lines(nlocal as int, n as nat));
    lines
}

/// Writes the atoms, ghosts included, and the registered columns.
pub fn write_vtp<F: Fn(Op, Scalar, Scalar, Scalar) -> Scalar, R: Fn(Style, Scalar) -> String>(
    atoms: &Atom,
    scalars: &Vec<(String, Vec<Scalar>)>,
    vectors: &Vec<(String, Vec<Vec3>)>,
    ar: &F,
    show: &R,
) -> (r: String)
    requires
        is_arithmetic(*ar),
        is_rendering(*show),
        atoms.wf(),
    ensures
        r@ == vtp_file(*ar, *show, *atoms, scalars@, vectors@),
{
    let n: usize = atoms.len();
    let mut out: String =
        "<?xml version=\"1.0\" encoding=\"UTF-8\"?>\n<VTKFile type=\"PolyData\" version=\"0.1\" byte_order=\"LittleEndian\">\n<PolyData>\n".to_owned();
    out.append("<Piece NumberOfPoints=\"");
    let count: String = decimal(n as u64);
    out.append(count.as_str());
    out.append("\">\n");
    out.append("<Points><DataArray type=\"Float32\" NumberOfComponents=\"3\" format=\"ascii\">");
    let points: String = write_lines(&list_vectors(show, &atoms.pos, n));
    out.append(points.as_str());
    out.append("</DataArray>\n</Points>\n");
    out.append("<PointData Scalars=\"\" Vectors=\"\">\n");
    assert(out@ == points_text(*show, *atoms));
    write_vtp_data_array(&mut out, "Float32", "Radius", &list_scalars(show, &atoms.cutoff_radius, n));
    write_vtp_data_array(&mut out, "Float32", "Vel_Mag", &list_speeds(&atoms.vel, ar, show));
    write_vtp_data_array(&mut out, "Int32", "IsGhost", &list_ghosts(atoms.nlocal as usize, n));
    let ghost head: Seq<char> = points_text(*show, *atoms) + fixed_arrays(*ar, *show, *atoms);
    let ghost first: Seq<Seq<char>> = scalar_arrays(*show, scalars@, n as nat);
    assert(out@ =~= head + flat(first, 0));
    let mut c: usize = 0;
    while c < scalars.len()
        invariant
            is_rendering(*show),
            c <= scalars@.len(),
            first == scalar_arrays(*show, scalars@, n as nat),
            out@ == head + flat(first, c as int),
        decreases scalars.len() - c,
    {
        write_vtp_data_array(
            &mut out,
            "Float32",
            scalars[c].0.as_str(),
            &list_scalars(show, &scalars[c].1, n),
        );
        assert(out@ =~= head + flat(first, c + 1));
        c = c + 1;
    }
    let ghost middle: Seq<char> = head + joined(first);
    let ghost second: Seq<Seq<char>> = vector_arrays(*show, vectors@, n as nat);
    assert(out@ =~= middle + flat(second, 0));
    c = 0;
    while c < vectors.len()
        invariant
            is_rendering(*show),
            c <= vectors@.len(),
            second == vector_arrays(*show, vectors@, n as nat),
            out@ == middle + flat(second, c as int),
        decreases vectors.len() - c,
    {
        out.append("<DataArray type=\"Float32\" Name=\"");
        out.append(vectors[c].0.as_str());
        out.append("\" NumberOfComponents=\"3\" format=\"ascii\">\n");
        let lines: String = write_lines(&list_vectors(show, &vectors[c].1, n));
        out.append(lines.as_str());
        out.append("</DataArray>");
        assert(out@ =~= middle + (flat(second, c as int) + second[c as int]));
        c = c + 1;
    }
    out.append("</PointData>\n</Piece>\n</PolyData>\n</VTKFile>\n");
    out
}

/// The name of the file of one process and step.
pub open spec fn vtp_name(dir: Seq<char>, step: nat, rank: int) -> Seq<char> {
    dir + "/"@ + digits(step) + "CYCLE_"@ + signed_digits(rank) + "RANK.vtp"@
}

/// The name of the file of one process and step.
pub fn vtp_path(dir: &str, step: usize, rank: i32) -> (r: String)
    ensures
        r@ == vtp_name(dir@, step as nat, rank as int),
{
    let mut out: String = dir.to_owned();
    out.append("/");
    let number: String = decimal(step as u64);
    out.append(number.as_str());
    out.append("CYCLE_");
    let which: String = signed_decimal(rank);
    out.append(which.as_str());
    out.append("RANK.vtp");
    out
}

} // verus!

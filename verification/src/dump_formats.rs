//! The file formats of a snapshot: comma-separated text, packed binary and the
//! LAMMPS trajectory format.

use crate::dump::{lemma_vector_entries, scalar_entries, triple, vector_entries, DumpFrame};
use crate::scalar::{Scalar, Vec3};
use crate::text::{
    decimal, digits, file_text, is_rendering, join, joined_with, render, rendered, texts,
    write_lines, Style,
};
use crate::transport::{flat, joined, lemma_even_len, lemma_even_parts};
use vstd::bytes::{
    spec_u32_from_le_bytes, spec_u32_to_le_bytes, spec_u64_from_le_bytes, spec_u64_to_le_bytes, u32_to_le_bytes,
    u64_to_le_bytes,
};
use vstd::prelude::*;
use vstd::string::*;

verus! {

/// The texts of some numbers.
pub open spec fn numbers<R: Fn(Style, Scalar) -> String>(show: R, values: Seq<Scalar>) -> Seq<Seq<char>> {
    Seq::new(values.len(), |k: int| rendered(show, Style::Plain, values[k]))
}

/// The values of atom `i` in the order of the files.
pub open spec fn file_values(f: DumpFrame, i: int) -> Seq<Scalar> {
    triple(f.pos@[i]) + triple(f.vel@[i]) + triple(f.force@[i]) + seq![f.radius@[i]] + scalar_entries(
        f.scalars@,
        i,
    ) + vector_entries(f.vectors@, i, f.vectors@.len() as int)
}

pub open spec fn flag_text(flag: bool) -> Seq<char> {
    if flag {
        "1"@
    } else {
        "0"@
    }
}

/// What a text file says of atom `i`.
pub open spec fn row_fields<R: Fn(Style, Scalar) -> String>(show: R, f: DumpFrame, i: int) -> Seq<Seq<char>> {
    seq![digits(f.tag@[i] as nat), digits(f.atom_type@[i] as nat)] + numbers(show, file_values(f, i))
        + match f.is_ghost {
        Some(g) => seq![flag_text(g@[i])],
        None => seq![],
    }
}

/// The names of the scalar columns.
pub open spec fn scalar_names(columns: Seq<(String, Vec<Scalar>)>) -> Seq<Seq<char>> {
    Seq::new(columns.len(), |c: int| columns[c].0@)
}

/// The names of the components of the first `k` vector columns.
pub open spec fn vector_names(columns: Seq<(String, Vec<Vec3>)>, k: int) -> Seq<Seq<char>>
    decreases k,
{
    if k <= 0 {
        seq![]
    } else {
        let name = columns[k - 1].0@;
        vector_names(columns, k - 1) + seq![name + "_x"@, name + "_y"@, name + "_z"@]
    }
}

/// The names of the columns; the first is `first`.
pub open spec fn column_names(f: DumpFrame, first: Seq<char>) -> Seq<Seq<char>> {
    seq![
        first,
        "type"@,
        "x"@,
        "y"@,
        "z"@,
        "vx"@,
        "vy"@,
        "vz"@,
        "fx"@,
        "fy"@,
        "fz"@,
        "radius"@,
    ] + scalar_names(f.scalars@) + vector_names(f.vectors@, f.vectors@.len() as int)
        + if f.is_ghost is Some {
        seq!["IsGhost"@]
    } else {
        seq![]
    }
}

/// The lines of the atoms.
pub open spec fn rows<R: Fn(Style, Scalar) -> String>(show: R, f: DumpFrame, sep: Seq<char>) -> Seq<Seq<char>> {
    Seq::new(f.count(), |i: int| joined_with(row_fields(show, f, i), sep))
}

fn push_number<R: Fn(Style, Scalar) -> String>(fields: &mut Vec<String>, show: &R, x: Scalar)
    requires
        is_rendering(*show),
    ensures
        texts(final(fields)@) == texts(old(fields)@).push(rendered(*show, Style::Plain, x)),
{
    fields.push(render(show, Style::Plain, x));
    assert(texts(fields@) =~= texts(old(fields)@).push(rendered(*show, Style::Plain, x)));
}

fn push_numbers<R: Fn(Style, Scalar) -> String>(fields: &mut Vec<String>, show: &R, v: Vec3)
    requires
        is_rendering(*show),
    ensures
        texts(final(fields)@) == texts(old(fields)@) + numbers(*show, triple(v)),
{
    push_number(fields, show, v[0]);
    push_number(fields, show, v[1]);
    push_number(fields, show, v[2]);
    assert(texts(fields@) =~= texts(old(fields)@) + numbers(*show, triple(v)));
}

fn push_text(fields: &mut Vec<String>, text: &str)
    ensures
        texts(final(fields)@) == texts(old(fields)@).push(text@),
{
    fields.push(text.to_owned());
    assert(texts(fields@) =~= texts(old(fields)@).push(text@));
}

fn push_line(lines: &mut Vec<String>, line: String)
    ensures
        texts(final(lines)@) == texts(old(lines)@).push(line@),
{
    lines.push(line);
    assert(texts(lines@) =~= texts(old(lines)@).push(line@));
}

/// The fields of atom `i`, with a separator between them.
fn row_text<R: Fn(Style, Scalar) -> String>(frame: &DumpFrame, i: usize, sep: &str, show: &R) -> (r:
    String)
    requires
        is_rendering(*show),
        frame.wf(),
        i < frame.count(),
    ensures
        r@ == joined_with(row_fields(*show, *frame, i as int), sep@),
{
    let mut fields: Vec<String> = Vec::new();
    fields.push(decimal(frame.tag[i]));
    fields.push(decimal(frame.atom_type[i]));
    let ghost head: Seq<Seq<char>> = seq![
        digits(frame.tag@[i as int] as nat),
        digits(frame.atom_type@[i as int] as nat),
    ];
    assert(texts(fields@) =~= head);
    push_numbers(&mut fields, show, frame.pos[i]);
    push_numbers(&mut fields, show, frame.vel[i]);
    push_numbers(&mut fields, show, frame.force[i]);
    push_number(&mut fields, show, frame.radius[i]);
    let ghost fixed: Seq<Scalar> = triple(frame.pos@[i as int]) + triple(frame.vel@[i as int]) + triple(
        frame.force@[i as int],
    ) + seq![frame.radius@[i as int]];
    let ghost extra: Seq<Scalar> = scalar_entries(frame.scalars@, i as int);
    assert(texts(fields@) =~= head + numbers(*show, fixed + extra.take(0)));
    let mut c: usize = 0;
    while c < frame.scalars.len()
        invariant
            is_rendering(*show),
            frame.wf(),
            i < frame.count(),
            extra == scalar_entries(frame.scalars@, i as int),
            c <= frame.scalars@.len(),
            texts(fields@) == head + numbers(*show, fixed + extra.take(c as int)),
        decreases frame.scalars.len() - c,
    {
        assert(frame.scalars@[c as int].1@.len() == frame.count());
        push_number(&mut fields, show, frame.scalars[c].1[i]);
        assert(texts(fields@) =~= head + numbers(*show, fixed + extra.take(c + 1)));
        c = c + 1;
    }
    let ghost values: Seq<Scalar> = fixed + extra;
    assert(extra.take(c as int) =~= extra);
    assert(values + vector_entries(frame.vectors@, i as int, 0) =~= values);
    c = 0;
    while c < frame.vectors.len()
        invariant
            is_rendering(*show),
            frame.wf(),
            i < frame.count(),
            c <= frame.vectors@.len(),
            texts(fields@) == head + numbers(
                *show,
                values + vector_entries(frame.vectors@, i as int, c as int),
            ),
        decreases frame.vectors.len() - c,
    {
        assert(frame.vectors@[c as int].1@.len() == frame.count());
        push_numbers(&mut fields, show, frame.vectors[c].1[i]);
        assert(texts(fields@) =~= head + numbers(
            *show,
            values + vector_entries(frame.vectors@, i as int, c + 1),
        ));
        c = c + 1;
    }
    assert(texts(fields@) == head + numbers(*show, file_values(*frame, i as int)));
    if let Some(g) = &frame.is_ghost {
        push_text(
            &mut fields,
            if g[i] {
                "1"
            } else {
                "0"
            },
        );
    }
    assert(texts(fields@) =~= row_fields(*show, *frame, i as int));
    join(&fields, sep)
}

/// The names of the columns, with a separator between them.
fn header_text(frame: &DumpFrame, first: &str, sep: &str) -> (r: String)
    ensures
        r@ == joined_with(column_names(*frame, first@), sep@),
{
    let mut fields: Vec<String> = Vec::new();
    push_text(&mut fields, first);
    push_text(&mut fields, "type");
    push_text(&mut fields, "x");
    push_text(&mut fields, "y");
    push_text(&mut fields, "z");
    push_text(&mut fields, "vx");
    push_text(&mut fields, "vy");
    push_text(&mut fields, "vz");
    push_text(&mut fields, "fx");
    push_text(&mut fields, "fy");
    push_text(&mut fields, "fz");
    push_text(&mut fields, "radius");
    let ghost fixed: Seq<Seq<char>> = seq![
        first@,
        "type"@,
        "x"@,
        "y"@,
        "z"@,
        "vx"@,
        "vy"@,
        "vz"@,
        "fx"@,
        "fy"@,
        "fz"@,
        "radius"@,
    ];
    assert(texts(fields@) =~= fixed + scalar_names(frame.scalars@).take(0));
    let mut c: usize = 0;
    while c < frame.scalars.len()
        invariant
            c <= frame.scalars@.len(),
            texts(fields@) == fixed + scalar_names(frame.scalars@).take(c as int),
        decreases frame.scalars.len() - c,
    {
        push_text(&mut fields, frame.scalars[c].0.as_str());
        assert(texts(fields@) =~= fixed + scalar_names(frame.scalars@).take(c + 1));
        c = c + 1;
    }
    let ghost head: Seq<Seq<char>> = fixed + scalar_names(frame.scalars@);
    assert(texts(fields@) =~= head + vector_names(frame.vectors@, 0));
    c = 0;
    while c < frame.vectors.len()
        invariant
            c <= frame.vectors@.len(),
            texts(fields@) == head + vector_names(frame.vectors@, c as int),
        decreases frame.vectors.len() - c,
    {
        let name: &String = &frame.vectors[c].0;
        let x: String = name.clone().concat("_x");
        let y: String = name.clone().concat("_y");
        let z: String = name.clone().concat("_z");
        push_text(&mut fields, x.as_str());
        push_text(&mut fields, y.as_str());
        push_text(&mut fields, z.as_str());
        assert(texts(fields@) =~= head + vector_names(frame.vectors@, c + 1));
        c = c + 1;
    }
    if frame.is_ghost.is_some() {
        push_text(&mut fields, "IsGhost");
    }
    assert(texts(fields@) =~= column_names(*frame, first@));
    join(&fields, sep)
}

/// Appends the lines of the atoms.
fn push_rows<R: Fn(Style, Scalar) -> String>(
    lines: &mut Vec<String>,
    frame: &DumpFrame,
    sep: &str,
    show: &R,
)
    requires
        is_rendering(*show),
        frame.wf(),
    ensures
        texts(final(lines)@) == texts(old(lines)@) + rows(*show, *frame, sep@),
{
    let ghost start: Seq<Seq<char>> = texts(lines@);
    let mut i: usize = 0;
    while i < frame.tag.len()
        invariant
            is_rendering(*show),
            frame.wf(),
            i <= frame.count(),
            texts(lines@) =~= start + rows(*show, *frame, sep@).take(i as int),
        decreases frame.tag.len() - i,
    {
        push_line(lines, row_text(frame, i, sep, show));
        i = i + 1;
    }
}

/// The lines of a comma-separated snapshot.
pub open spec fn text_lines<R: Fn(Style, Scalar) -> String>(show: R, f: DumpFrame) -> Seq<Seq<char>> {
    seq![joined_with(column_names(f, "tag"@), ","@)] + rows(show, f, ","@)
}

/// Writes a comma-separated snapshot: a header and a line for each atom.
pub fn write_dump_text<R: Fn(Style, Scalar) -> String>(frame: &DumpFrame, show: &R) -> (r: String)
    requires
        is_rendering(*show),
        frame.wf(),
    ensures
        r@ == file_text(text_lines(*show, *frame)),
{
    let mut lines: Vec<String> = Vec::new();
    lines.push(header_text(frame, "tag", ","));
    push_rows(&mut lines, frame, ",", show);
    assert(texts(lines@) =~= text_lines(*show, *frame));
    write_lines(&lines)
}

pub open spec fn boundary_text(periodic: bool) -> Seq<char> {
    if periodic {
        "pp"@
    } else {
        "ff"@
    }
}

/// The bounds of the box in direction `d`.
pub open spec fn bounds_text<R: Fn(Style, Scalar) -> String>(show: R, f: DumpFrame, d: int) -> Seq<char> {
    rendered(show, Style::Plain, f.box_info.low[d]) + " "@ + rendered(
        show,
        Style::Plain,
        f.box_info.high[d],
    )
}

/// The lines of a snapshot in the LAMMPS trajectory format.
pub open spec fn lammps_lines<R: Fn(Style, Scalar) -> String>(show: R, f: DumpFrame) -> Seq<Seq<char>> {
    let periodic = f.box_info.periodic;
    seq![
        "ITEM: TIMESTEP"@,
        digits(f.step as nat),
        "ITEM: NUMBER OF ATOMS"@,
        digits(f.count()),
        "ITEM: BOX BOUNDS "@ + boundary_text(periodic[0]) + " "@ + boundary_text(periodic[1]) + " "@
            + boundary_text(periodic[2]),
        bounds_text(show, f, 0),
        bounds_text(show, f, 1),
        bounds_text(show, f, 2),
        "ITEM: ATOMS "@ + joined_with(column_names(f, "id"@), " "@),
    ] + rows(show, f, " "@)
}

fn boundary_token(periodic: bool) -> (r: &'static str)
    ensures
        r@ == boundary_text(periodic),
{
    if periodic {
        "pp"
    } else {
        "ff"
    }
}

/// Writes a snapshot in the LAMMPS trajectory format.
pub fn write_dump_lammps<R: Fn(Style, Scalar) -> String>(frame: &DumpFrame, show: &R) -> (r: String)
    requires
        is_rendering(*show),
        frame.wf(),
    ensures
        r@ == file_text(lammps_lines(*show, *frame)),
{
    let mut lines: Vec<String> = Vec::new();
    push_line(&mut lines, "ITEM: TIMESTEP".to_owned());
    push_line(&mut lines, decimal(frame.step as u64));
    push_line(&mut lines, "ITEM: NUMBER OF ATOMS".to_owned());
    push_line(&mut lines, decimal(frame.n() as u64));
    let mut bounds: String = "ITEM: BOX BOUNDS ".to_owned();
    bounds.append(boundary_token(frame.box_info.periodic[0]));
    bounds.append(" ");
    bounds.append(boundary_token(frame.box_info.periodic[1]));
    bounds.append(" ");
    bounds.append(boundary_token(frame.box_info.periodic[2]));
    push_line(&mut lines, bounds);
    let ghost five: Seq<Seq<char>> = texts(lines@);
    let mut d: usize = 0;
    while d < 3
        invariant
            is_rendering(*show),
            d <= 3,
            five.len() == 5,
            texts(lines@) =~= five + Seq::new(d as nat, |k: int| bounds_text(*show, *frame, k)),
        decreases 3 - d,
    {
        let mut line: String = render(show, Style::Plain, frame.box_info.low[d]);
        line.append(" ");
        let high: String = render(show, Style::Plain, frame.box_info.high[d]);
        line.append(high.as_str());
        push_line(&mut lines, line);
        d = d + 1;
    }
    let mut columns: String = "ITEM: ATOMS ".to_owned();
    let names: String = header_text(frame, "id", " ");
    columns.append(names.as_str());
    push_line(&mut lines, columns);
    push_rows(&mut lines, frame, " ", show);
    assert(texts(lines@) =~= lammps_lines(*show, *frame));
    write_lines(&lines)
}

/// The bytes of some numbers.
pub open spec fn number_bytes(values: Seq<Scalar>) -> Seq<u8> {
    joined(Seq::new(values.len(), |k: int| spec_u64_to_le_bytes(values[k].bits)))
}

/// What a binary file says of atom `i`: tag and type in four bytes each, the
/// numbers in eight bytes each and, where ghosts are told apart, a byte for
/// that; the lowest byte of each comes first.
pub open spec fn binary_record(f: DumpFrame, i: int) -> Seq<u8> {
    spec_u32_to_le_bytes(f.tag@[i] as u32) + spec_u32_to_le_bytes(f.atom_type@[i] as u32)
        + number_bytes(file_values(f, i)) + match f.is_ghost {
        Some(g) => seq![
            if g@[i] {
                1u8
            } else {
                0u8
            },
        ],
        None => seq![],
    }
}

pub open spec fn binary_records(f: DumpFrame) -> Seq<Seq<u8>> {
    Seq::new(f.count(), |i: int| binary_record(f, i))
}

/// The bytes of a binary snapshot: the number of atoms in four bytes, then the
/// atoms.
pub open spec fn binary_bytes(f: DumpFrame) -> Seq<u8> {
    spec_u32_to_le_bytes(f.count() as u32) + joined(binary_records(f))
}

fn push_bytes(out: &mut Vec<u8>, x: Scalar)
    ensures
        final(out)@ == old(out)@ + spec_u64_to_le_bytes(x.bits),
{
    let mut bytes: Vec<u8> = u64_to_le_bytes(x.bits);
    out.append(&mut bytes);
}

fn push_word(out: &mut Vec<u8>, x: u32)
    ensures
        final(out)@ == old(out)@ + spec_u32_to_le_bytes(x),
{
    let mut bytes: Vec<u8> = u32_to_le_bytes(x);
    out.append(&mut bytes);
}

/// One more number.
proof fn lemma_number_bytes(values: Seq<Scalar>, x: Scalar)
    ensures
        number_bytes(values.push(x)) == number_bytes(values) + spec_u64_to_le_bytes(x.bits),
{
    let parts: Seq<Seq<u8>> = Seq::new(values.len(), |k: int| spec_u64_to_le_bytes(values[k].bits));
    let more: Seq<Scalar> = values.push(x);
    assert(Seq::new(more.len(), |k: int| spec_u64_to_le_bytes(more[k].bits)) =~= parts.push(
        spec_u64_to_le_bytes(x.bits),
    ));
    crate::transport::lemma_flat_push(parts, spec_u64_to_le_bytes(x.bits));
}

fn push_triple_bytes(out: &mut Vec<u8>, v: Vec3, Ghost(start): Ghost<Seq<u8>>, Ghost(values): Ghost<Seq<Scalar>>)
    requires
        old(out)@ == start + number_bytes(values),
    ensures
        final(out)@ == start + number_bytes(values + triple(v)),
{
    push_bytes(out, v[0]);
    push_bytes(out, v[1]);
    push_bytes(out, v[2]);
    proof {
        lemma_number_bytes(values, v[0]);
        lemma_number_bytes(values.push(v[0]), v[1]);
        lemma_number_bytes(values.push(v[0]).push(v[1]), v[2]);
        assert(values.push(v[0]).push(v[1]).push(v[2]) =~= values + triple(v));
        assert(out@ =~= start + number_bytes(values + triple(v)));
    }
}

fn push_record(out: &mut Vec<u8>, frame: &DumpFrame, i: usize)
    requires
        frame.wf(),
        i < frame.count(),
    ensures
        final(out)@ == old(out)@ + binary_record(*frame, i as int),
{
    let ghost before: Seq<u8> = out@;
    push_word(out, frame.tag[i] as u32);
    push_word(out, frame.atom_type[i] as u32);
    let ghost start: Seq<u8> = out@;
    let ghost none: Seq<Scalar> = seq![];
    assert(start + number_bytes(none) =~= start);
    let ghost p: Seq<Scalar> = triple(frame.pos@[i as int]);
    let ghost pv: Seq<Scalar> = p + triple(frame.vel@[i as int]);
    let ghost pvf: Seq<Scalar> = pv + triple(frame.force@[i as int]);
    assert(none + p =~= p);
    push_triple_bytes(out, frame.pos[i], Ghost(start), Ghost(none));
    push_triple_bytes(out, frame.vel[i], Ghost(start), Ghost(p));
    push_triple_bytes(out, frame.force[i], Ghost(start), Ghost(pv));
    push_bytes(out, frame.radius[i]);
    let ghost fixed: Seq<Scalar> = pvf + seq![frame.radius@[i as int]];
    let ghost extra: Seq<Scalar> = scalar_entries(frame.scalars@, i as int);
    proof {
        lemma_number_bytes(pvf, frame.radius@[i as int]);
        assert(pvf.push(frame.radius@[i as int]) =~= fixed + extra.take(0));
        assert(out@ =~= start + number_bytes(fixed + extra.take(0)));
    }
    let mut c: usize = 0;
    while c < frame.scalars.len()
        invariant
            frame.wf(),
            i < frame.count(),
            extra == scalar_entries(frame.scalars@, i as int),
            c <= frame.scalars@.len(),
            out@ == start + number_bytes(fixed + extra.take(c as int)),
        decreases frame.scalars.len() - c,
    {
        assert(frame.scalars@[c as int].1@.len() == frame.count());
        push_bytes(out, frame.scalars[c].1[i]);
        proof {
            let so_far: Seq<Scalar> = fixed + extra.take(c as int);
            lemma_number_bytes(so_far, extra[c as int]);
            assert(so_far.push(extra[c as int]) =~= fixed + extra.take(c + 1));
            assert(out@ =~= start + number_bytes(fixed + extra.take(c + 1)));
        }
        c = c + 1;
    }
    let ghost values: Seq<Scalar> = fixed + extra;
    assert(extra.take(c as int) =~= extra);
    assert(values + vector_entries(frame.vectors@, i as int, 0) =~= values);
    c = 0;
    while c < frame.vectors.len()
        invariant
            frame.wf(),
            i < frame.count(),
            c <= frame.vectors@.len(),
            out@ == start + number_bytes(values + vector_entries(frame.vectors@, i as int, c as int)),
        decreases frame.vectors.len() - c,
    {
        assert(frame.vectors@[c as int].1@.len() == frame.count());
        let ghost so_far: Seq<Scalar> = values + vector_entries(frame.vectors@, i as int, c as int);
        push_triple_bytes(out, frame.vectors[c].1[i], Ghost(start), Ghost(so_far));
        assert(so_far + triple(frame.vectors@[c as int].1@[i as int]) =~= values + vector_entries(
            frame.vectors@,
            i as int,
            c + 1,
        ));
        c = c + 1;
    }
    assert(values + vector_entries(frame.vectors@, i as int, c as int) =~= file_values(
        *frame,
        i as int,
    ));
    if let Some(g) = &frame.is_ghost {
        out.push(
            if g[i] {
                1
            } else {
                0
            },
        );
    }
    assert(out@ =~= before + binary_record(*frame, i as int));
}

/// Writes a binary snapshot.
pub fn write_dump_binary(frame: &DumpFrame) -> (r: Vec<u8>)
    requires
        frame.wf(),
    ensures
        r@ == binary_bytes(*frame),
{
    let mut out: Vec<u8> = Vec::new();
    push_word(&mut out, frame.n() as u32);
    let ghost head: Seq<u8> = out@;
    assert(head =~= spec_u32_to_le_bytes(frame.count() as u32));
    let ghost parts: Seq<Seq<u8>> = binary_records(*frame);
    let mut i: usize = 0;
    assert(out@ =~= head + flat(parts, 0));
    while i < frame.tag.len()
        invariant
            frame.wf(),
            i <= frame.count(),
            parts == binary_records(*frame),
            out@ == head + flat(parts, i as int),
        decreases frame.tag.len() - i,
    {
        push_record(&mut out, frame, i);
        assert(out@ =~= head + flat(parts, i + 1));
        i = i + 1;
    }
    out
}


/// The numbers of each atom in a file.
pub open spec fn value_count(f: DumpFrame) -> int {
    10int + f.scalars@.len() + 3 * f.vectors@.len()
}

/// The bytes of each atom in a binary file.
pub open spec fn record_size(f: DumpFrame) -> int {
    8 + 8 * value_count(f) + if f.is_ghost is Some {
        1int
    } else {
        0int
    }
}

proof fn lemma_record_size(f: DumpFrame, i: int)
    requires
        f.wf(),
        0 <= i < f.count(),
    ensures
        file_values(f, i).len() == value_count(f),
        number_bytes(file_values(f, i)).len() == 8 * value_count(f),
        binary_record(f, i).len() == record_size(f),
{
    let values: Seq<Scalar> = file_values(f, i);
    lemma_vector_entries(f.vectors@, i, f.vectors@.len() as int, 0);
    let parts: Seq<Seq<u8>> = Seq::new(values.len(), |k: int| spec_u64_to_le_bytes(values[k].bits));
    vstd::bytes::lemma_auto_spec_u64_to_from_le_bytes();
    vstd::bytes::lemma_auto_spec_u32_to_from_le_bytes();
    lemma_even_len(parts, 8, parts.len() as int);
}

/// A binary snapshot can be read by place: every atom takes the same number of
/// bytes, its tag and type stand at the head, and number `k` of atom `i` stands
/// at a fixed offset and reads back as it was written.
pub proof fn binary_snapshot_reads_back(f: DumpFrame, i: int, k: int)
    requires
        f.wf(),
        0 <= i < f.count(),
        0 <= k < value_count(f),
    ensures
        ({
            let bytes = binary_bytes(f);
            let at = 4 + i * record_size(f);
            let value = at + 8 + 8 * k;
            &&& bytes.len() == 4 + f.count() * record_size(f)
            &&& spec_u32_from_le_bytes(bytes.subrange(0, 4)) == f.count() as u32
            &&& spec_u32_from_le_bytes(bytes.subrange(at, at + 4)) == f.tag@[i] as u32
            &&& spec_u32_from_le_bytes(bytes.subrange(at + 4, at + 8)) == f.atom_type@[i] as u32
            &&& spec_u64_from_le_bytes(bytes.subrange(value, value + 8)) == file_values(f, i)[k].bits
        }),
{
    let bytes: Seq<u8> = binary_bytes(f);
    let parts: Seq<Seq<u8>> = binary_records(f);
    let size: int = record_size(f);
    let at: int = 4 + i * size;
    let value: int = at + 8 + 8 * k;
    let values: Seq<Scalar> = file_values(f, i);
    let words: Seq<Seq<u8>> = Seq::new(values.len(), |j: int| spec_u64_to_le_bytes(values[j].bits));
    vstd::bytes::lemma_auto_spec_u64_to_from_le_bytes();
    vstd::bytes::lemma_auto_spec_u32_to_from_le_bytes();
    assert forall|j: int| 0 <= j < parts.len() implies (#[trigger] parts[j]).len() == size by {
        lemma_record_size(f, j);
    }
    lemma_record_size(f, i);
    lemma_even_len(parts, size, parts.len() as int);
    lemma_even_parts(parts, size, i, size - 1);
    let record: Seq<u8> = binary_record(f, i);
    assert forall|x: int| 0 <= x < size implies #[trigger] bytes[at + x] == record[x] by {
        lemma_even_parts(parts, size, i, x);
        assert(parts[i][x] == record[x]);
    }
    assert forall|x: int| 0 <= x < 8 implies #[trigger] record[8 + 8 * k + x] == words[k][x] by {
        lemma_even_parts(words, 8, k, x);
    }
    assert(bytes.subrange(0, 4) =~= spec_u32_to_le_bytes(f.count() as u32));
    assert(bytes.subrange(at, at + 4) =~= spec_u32_to_le_bytes(f.tag@[i] as u32)) by {
        assert forall|x: int| 0 <= x < 4 implies #[trigger] bytes.subrange(at, at + 4)[x] == spec_u32_to_le_bytes(
            f.tag@[i] as u32,
        )[x] by {
            assert(bytes[at + x] == record[x]);
        }
    }
    assert(bytes.subrange(at + 4, at + 8) =~= spec_u32_to_le_bytes(f.atom_type@[i] as u32)) by {
        assert forall|x: int| 0 <= x < 4 implies #[trigger] bytes.subrange(at + 4, at + 8)[x]
            == spec_u32_to_le_bytes(f.atom_type@[i] as u32)[x] by {
            assert(bytes[at + (4 + x)] == record[4 + x]);
        }
    }
    assert(bytes.subrange(value, value + 8) =~= words[k]) by {
        assert forall|x: int| 0 <= x < 8 implies #[trigger] bytes.subrange(value, value + 8)[x] == words[k][x] by {
            assert(bytes[at + (8 + 8 * k + x)] == record[8 + 8 * k + x]);
        }
    }
}

} // verus!

//! From the declaration of a struct to its columns: which fields can be
//! columns, and where each of them stands in a record and in a message.

use crate::atom_data::Field;
use crate::columns::{comm_offset, comm_size, offset_of, record_size, selected, CommDirection};
use vstd::prelude::*;
use vstd::string::*;

verus! {

/// A type as it is written in a declaration.
pub enum TypeExpr {
    /// A path, such as `Vec<T>`.
    Path(TypePath),
    /// An array, and its length where that is an integer literal.
    Array(Box<TypeExpr>, Option<usize>),
    /// Anything else.
    Other,
}

/// A path of segments, with or without `::` in front.
pub struct TypePath {
    pub leading_colon: bool,
    pub segments: Vec<Segment>,
}

/// A segment of a path and its arguments.
pub struct Segment {
    pub name: String,
    pub arguments: Arguments,
}

/// The arguments of a segment.
pub enum Arguments {
    Absent,
    Angle(Vec<Argument>),
    Parenthesized,
}

/// An argument in angle brackets.
pub enum Argument {
    Type(TypeExpr),
    Other,
}

/// What a column holds for each atom.
#[derive(Clone, Copy, PartialEq, Eq, Structural, Debug)]
pub enum FieldKind {
    /// One number.
    Scalar,
    /// A fixed number of numbers.
    Array(usize),
}

impl TypePath {
    /// The path is this one name and nothing else.
    pub open spec fn is_name(&self, name: Seq<char>) -> bool {
        &&& !self.leading_colon
        &&& self.segments@.len() == 1
        &&& self.segments@[0].name@ == name
        &&& self.segments@[0].arguments is Absent
    }

    fn is_ident(&self, name: &str) -> (r: bool)
        ensures
            r == self.is_name(name@),
    {
        if self.leading_colon || self.segments.len() != 1 {
            return false;
        }
        if self.segments[0].name != name.to_owned() {
            return false;
        }
        match &self.segments[0].arguments {
            Arguments::Absent => true,
            _ => false,
        }
    }
}

/// The type is the number type.
pub open spec fn is_number(t: TypeExpr) -> bool {
    t matches TypeExpr::Path(p) && p.is_name("f64"@)
}

/// What a vector of `t` holds for each atom.
pub open spec fn element_kind(t: TypeExpr) -> Option<FieldKind> {
    if is_number(t) {
        Some(FieldKind::Scalar)
    } else {
        match t {
            TypeExpr::Array(elem, Some(n)) => if is_number(*elem) {
                Some(FieldKind::Array(n))
            } else {
                None
            },
            _ => None,
        }
    }
}

/// The element type, where `t` is a vector with one type argument.
pub open spec fn vector_of(t: TypeExpr) -> Option<TypeExpr> {
    match t {
        TypeExpr::Path(p) => if p.segments@.len() == 1 && p.segments@[0].name@ == "Vec"@ {
            match p.segments@[0].arguments {
                Arguments::Angle(args) => if args@.len() == 1 {
                    match args@[0] {
                        Argument::Type(inner) => Some(inner),
                        Argument::Other => None,
                    }
                } else {
                    None
                },
                _ => None,
            }
        } else {
            None
        },
        _ => None,
    }
}

/// The kind of column that a field of this type is; `None` where it can be
/// none.
pub open spec fn kind_of(t: TypeExpr) -> Option<FieldKind> {
    match vector_of(t) {
        Some(inner) => element_kind(inner),
        None => None,
    }
}

fn classify_element(t: &TypeExpr) -> (r: Option<FieldKind>)
    ensures
        r == element_kind(*t),
{
    match t {
        TypeExpr::Path(p) => if p.is_ident("f64") {
            Some(FieldKind::Scalar)
        } else {
            None
        },
        TypeExpr::Array(elem, Some(n)) => match &**elem {
            TypeExpr::Path(p) => if p.is_ident("f64") {
                Some(FieldKind::Array(*n))
            } else {
                None
            },
            _ => None,
        },
        _ => None,
    }
}

/// The kind of column that a field of this type is: a vector of numbers or of
/// arrays of numbers with a literal length.
pub fn classify_field(t: &TypeExpr) -> (r: Option<FieldKind>)
    ensures
        r == kind_of(*t),
{
    match t {
        TypeExpr::Path(p) => {
            if p.segments.len() != 1 || p.segments[0].name != "Vec".to_owned() {
                return None;
            }
            match &p.segments[0].arguments {
                Arguments::Angle(args) => {
                    if args.len() != 1 {
                        return None;
                    }
                    match &args[0] {
                        Argument::Type(inner) => classify_element(inner),
                        Argument::Other => None,
                    }
                },
                _ => None,
            }
        },
        _ => None,
    }
}

/// A field of a declaration: its name, its type and the names of its attributes.
pub struct FieldDecl {
    pub name: String,
    pub ty: TypeExpr,
    pub attributes: Vec<String>,
}

/// A declaration.
pub enum Declaration {
    /// A struct with named fields.
    Named(Vec<FieldDecl>),
    /// A tuple struct or a unit struct.
    Unnamed,
    /// An enum or a union.
    NotStruct,
}

/// A column: its name, its kind and the communication it takes part in.
pub struct FieldInfo {
    pub name: String,
    pub kind: FieldKind,
    pub is_forward: bool,
    pub is_reverse: bool,
    pub is_zero: bool,
}

/// Why a declaration has no columns.
pub enum DeriveError {
    NotStruct,
    Unnamed,
    /// The named field has a type that cannot be a column.
    Unsupported(String),
}

/// One of the attributes has this name.
pub open spec fn carries(attributes: Seq<String>, name: Seq<char>) -> bool {
    exists|k: int| 0 <= k < attributes.len() && (#[trigger] attributes[k])@ == name
}

/// Whether the field carries an attribute.
pub fn has_attr(field: &FieldDecl, name: &str) -> (r: bool)
    ensures
        r == carries(field.attributes@, name@),
{
    let wanted: String = name.to_owned();
    let mut k: usize = 0;
    while k < field.attributes.len()
        invariant
            k <= field.attributes@.len(),
            wanted@ == name@,
            forall|j: int| 0 <= j < k ==> (#[trigger] field.attributes@[j])@ != name@,
        decreases field.attributes.len() - k,
    {
        if field.attributes[k] == wanted {
            return true;
        }
        k = k + 1;
    }
    false
}

/// `info` is the column that `decl` declares.
pub open spec fn declares(decl: FieldDecl, info: FieldInfo) -> bool {
    &&& info.name@ == decl.name@
    &&& kind_of(decl.ty) == Some(info.kind)
    &&& info.is_forward == carries(decl.attributes@, "forward"@)
    &&& info.is_reverse == carries(decl.attributes@, "reverse"@)
    &&& info.is_zero == carries(decl.attributes@, "zero"@)
}

/// `name` is the first field that can be no column.
pub open spec fn first_unsupported(fields: Seq<FieldDecl>, name: Seq<char>) -> bool {
    exists|k: int|
        {
            &&& 0 <= k < fields.len()
            &&& name == (#[trigger] fields[k]).name@
            &&& kind_of(fields[k].ty) is None
            &&& forall|j: int| 0 <= j < k ==> kind_of((#[trigger] fields[j]).ty) is Some
        }
}

/// The columns of a declaration, or why it has none.
pub open spec fn columns_or_error(decl: Declaration, r: Result<Vec<FieldInfo>, DeriveError>) -> bool {
    match decl {
        Declaration::NotStruct => r == Err::<Vec<FieldInfo>, DeriveError>(DeriveError::NotStruct),
        Declaration::Unnamed => r == Err::<Vec<FieldInfo>, DeriveError>(DeriveError::Unnamed),
        Declaration::Named(fields) => match r {
            Ok(infos) => {
                &&& infos@.len() == fields@.len()
                &&& forall|k: int|
                    0 <= k < fields@.len() ==> declares(fields@[k], #[trigger] infos@[k])
            },
            Err(DeriveError::Unsupported(name)) => first_unsupported(fields@, name@),
            Err(_) => false,
        },
    }
}

/// The columns that a declaration has, in order. Every field has to be a column;
/// the first that is none is named in the error.
pub fn columns_of(decl: &Declaration) -> (r: Result<Vec<FieldInfo>, DeriveError>)
    ensures
        columns_or_error(*decl, r),
{
    match decl {
        Declaration::NotStruct => Err(DeriveError::NotStruct),
        Declaration::Unnamed => Err(DeriveError::Unnamed),
        Declaration::Named(fields) => {
            let mut infos: Vec<FieldInfo> = Vec::new();
            let mut k: usize = 0;
            while k < fields.len()
                invariant
                    *decl == Declaration::Named(*fields),
                    k <= fields@.len(),
                    infos@.len() == k,
                    forall|j: int| 0 <= j < k ==> declares(fields@[j], #[trigger] infos@[j]),
                    forall|j: int| 0 <= j < k ==> kind_of((#[trigger] fields@[j]).ty) is Some,
                decreases fields.len() - k,
            {
                let field: &FieldDecl = &fields[k];
                match classify_field(&field.ty) {
                    Some(kind) => {
                        infos.push(
                            FieldInfo {
                                name: field.name.clone(),
                                kind,
                                is_forward: has_attr(field, "forward"),
                                is_reverse: has_attr(field, "reverse"),
                                is_zero: has_attr(field, "zero"),
                            },
                        );
                    },
                    None => {
                        let name: String = field.name.clone();
                        assert(kind_of(fields@[k as int].ty) is None);
                        assert(first_unsupported(fields@, name@));
                        return Err(DeriveError::Unsupported(name));
                    },
                }
                k = k + 1;
            }
            Ok(infos)
        },
    }
}

/// What the user is told.
pub open spec fn error_text(e: DeriveError) -> Seq<char> {
    match e {
        DeriveError::NotStruct =>
            "AtomData can only be derived for structs, not enums or unions"@,
        DeriveError::Unnamed =>
            "AtomData can only be derived for structs with named fields (e.g. `struct Foo { field: Vec<f64> }`), not tuple or unit structs"@,
        DeriveError::Unsupported(name) => "AtomData: field `"@ + name@
            + "` has an unsupported type. Every field must be `Vec<f64>` or `Vec<[f64; N]>` (e.g. `Vec<[f64; 3]>`)."@,
    }
}

/// What the user is told.
pub fn error_message(e: &DeriveError) -> (r: String)
    ensures
        r@ == error_text(*e),
{
    match e {
        DeriveError::NotStruct =>
            "AtomData can only be derived for structs, not enums or unions".to_owned(),
        DeriveError::Unnamed =>
            "AtomData can only be derived for structs with named fields (e.g. `struct Foo { field: Vec<f64> }`), not tuple or unit structs".to_owned(),
        DeriveError::Unsupported(name) => {
            let mut out: String = "AtomData: field `".to_owned();
            out.append(name.as_str());
            out.append(
                "` has an unsupported type. Every field must be `Vec<f64>` or `Vec<[f64; N]>` (e.g. `Vec<[f64; 3]>`).",
            );
            out
        },
    }
}

/// The numbers of a column for each atom.
pub open spec fn width_of(kind: FieldKind) -> usize {
    match kind {
        FieldKind::Scalar => 1,
        FieldKind::Array(n) => n,
    }
}

fn width(kind: FieldKind) -> (r: usize)
    ensures
        r == width_of(kind),
{
    match kind {
        FieldKind::Scalar => 1,
        FieldKind::Array(n) => n,
    }
}

/// The columns as the column store knows them.
pub open spec fn shape_of(infos: Seq<FieldInfo>) -> Seq<Field> {
    Seq::new(
        infos.len(),
        |k: int|
            Field {
                width: width_of(infos[k].kind),
                forward: infos[k].is_forward,
                reverse: infos[k].is_reverse,
                zero: infos[k].is_zero,
            },
    )
}

/// The columns as the column store knows them.
pub fn column_fields(infos: &Vec<FieldInfo>) -> (r: Vec<Field>)
    ensures
        r@ == shape_of(infos@),
{
    let mut out: Vec<Field> = Vec::new();
    let mut k: usize = 0;
    while k < infos.len()
        invariant
            k <= infos@.len(),
            out@ =~= shape_of(infos@).take(k as int),
        decreases infos.len() - k,
    {
        out.push(
            Field {
                width: width(infos[k].kind),
                forward: infos[k].is_forward,
                reverse: infos[k].is_reverse,
                zero: infos[k].is_zero,
            },
        );
        k = k + 1;
    }
    assert(shape_of(infos@).take(k as int) =~= shape_of(infos@));
    out
}

proof fn lemma_offsets_grow(shape: Seq<Field>, k: int)
    requires
        0 <= k <= shape.len(),
    ensures
        offset_of(shape, k) <= record_size(shape),
        comm_offset(CommDirection::Forward, shape, k) <= comm_size(CommDirection::Forward, shape),
        comm_offset(CommDirection::Reverse, shape, k) <= comm_size(CommDirection::Reverse, shape),
        comm_offset(CommDirection::Forward, shape, k) <= offset_of(shape, k),
        comm_offset(CommDirection::Reverse, shape, k) <= offset_of(shape, k),
    decreases shape.len() - k,
{
    if k < shape.len() {
        lemma_offsets_grow(shape, k + 1);
    } else {
        lemma_comm_within(shape, k);
    }
    lemma_comm_within(shape, k);
}

proof fn lemma_comm_within(shape: Seq<Field>, k: int)
    requires
        0 <= k <= shape.len(),
    ensures
        comm_offset(CommDirection::Forward, shape, k) <= offset_of(shape, k),
        comm_offset(CommDirection::Reverse, shape, k) <= offset_of(shape, k),
    decreases k,
{
    if k > 0 {
        lemma_comm_within(shape, k - 1);
    }
}

/// Where each column begins in a record, and the length of a record.
pub fn record_layout(infos: &Vec<FieldInfo>) -> (r: (Vec<usize>, usize))
    requires
        record_size(shape_of(infos@)) <= usize::MAX,
    ensures
        r.0@.len() == infos@.len(),
        forall|k: int|
            0 <= k < infos@.len() ==> #[trigger] r.0@[k] == offset_of(shape_of(infos@), k),
        r.1 == record_size(shape_of(infos@)),
{
    let ghost shape: Seq<Field> = shape_of(infos@);
    let mut offsets: Vec<usize> = Vec::new();
    let mut offset: usize = 0;
    let mut k: usize = 0;
    while k < infos.len()
        invariant
            shape == shape_of(infos@),
            record_size(shape) <= usize::MAX,
            k <= infos@.len(),
            offset == offset_of(shape, k as int),
            offsets@.len() == k,
            forall|j: int| 0 <= j < k ==> #[trigger] offsets@[j] == offset_of(shape, j),
        decreases infos.len() - k,
    {
        proof {
            lemma_offsets_grow(shape, k + 1);
        }
        offsets.push(offset);
        offset = offset + width(infos[k].kind);
        k = k + 1;
    }
    (offsets, offset)
}

/// The columns that take part in a message, where each begins in it, and its
/// length.
pub struct CommLayout {
    pub members: Vec<usize>,
    pub offsets: Vec<usize>,
    pub size: usize,
}

/// The layout of a message; `None` where no column takes part.
pub fn comm_layout(infos: &Vec<FieldInfo>, dir: CommDirection) -> (r: Option<CommLayout>)
    requires
        record_size(shape_of(infos@)) <= usize::MAX,
    ensures
        match r {
            None => forall|k: int|
                0 <= k < infos@.len() ==> !selected(dir, #[trigger] shape_of(infos@)[k]),
            Some(l) => {
                let shape = shape_of(infos@);
                &&& l.members@.len() > 0
                &&& l.offsets@.len() == l.members@.len()
                &&& forall|m: int|
                    0 <= m < l.members@.len() ==> #[trigger] l.members@[m] < shape.len() && selected(
                        dir,
                        shape[l.members@[m] as int],
                    ) && l.offsets@[m] == comm_offset(dir, shape, l.members@[m] as int)
                &&& forall|a: int, b: int|
                    0 <= a < b < l.members@.len() ==> #[trigger] l.members@[a] < #[trigger] l.members@[b]
                &&& forall|k: int|
                    0 <= k < shape.len() && selected(dir, #[trigger] shape[k]) ==> l.members@.contains(
                        k as usize,
                    )
                &&& l.size == comm_size(dir, shape)
            },
        },
{
    let ghost shape: Seq<Field> = shape_of(infos@);
    let mut members: Vec<usize> = Vec::new();
    let mut offsets: Vec<usize> = Vec::new();
    let mut size: usize = 0;
    let mut k: usize = 0;
    while k < infos.len()
        invariant
            shape == shape_of(infos@),
            record_size(shape) <= usize::MAX,
            k <= infos@.len(),
            size == comm_offset(dir, shape, k as int),
            offsets@.len() == members@.len(),
            forall|m: int|
                0 <= m < members@.len() ==> #[trigger] members@[m] < k && selected(
                    dir,
                    shape[members@[m] as int],
                ) && offsets@[m] == comm_offset(dir, shape, members@[m] as int),
            forall|a: int, b: int|
                0 <= a < b < members@.len() ==> #[trigger] members@[a] < #[trigger] members@[b],
            forall|j: int|
                0 <= j < k && selected(dir, #[trigger] shape[j]) ==> members@.contains(j as usize),
            members@.len() == 0 ==> forall|j: int|
                0 <= j < k ==> !selected(dir, #[trigger] shape[j]),
        decreases infos.len() - k,
    {
        proof {
            lemma_offsets_grow(shape, k + 1);
        }
        let takes_part: bool = match dir {
            CommDirection::Forward => infos[k].is_forward,
            CommDirection::Reverse => infos[k].is_reverse,
        };
        assert(takes_part == selected(dir, shape[k as int]));
        if takes_part {
            let ghost before: Seq<usize> = members@;
            members.push(k);
            offsets.push(size);
            size = size + width(infos[k].kind);
            proof {
                assert(members@[before.len() as int] == k);
                assert forall|j: int| 0 <= j < k + 1 && selected(dir, #[trigger] shape[j]) implies members@.contains(
                    j as usize,
                ) by {
                    if j < k {
                        assert(before.contains(j as usize));
                        let m: int = choose|m: int| 0 <= m < before.len() && before[m] == j as usize;
                        assert(members@[m] == j as usize);
                    }
                }
            }
        }
        k = k + 1;
    }
    if members.len() == 0 {
        None
    } else {
        Some(CommLayout { members, offsets, size })
    }
}

/// The columns that are cleared at the start of a step, in order.
pub fn zero_members(infos: &Vec<FieldInfo>) -> (r: Vec<usize>)
    ensures
        forall|m: int|
            0 <= m < r@.len() ==> #[trigger] r@[m] < infos@.len() && infos@[r@[m] as int].is_zero,
        forall|a: int, b: int| 0 <= a < b < r@.len() ==> #[trigger] r@[a] < #[trigger] r@[b],
        forall|k: int|
            0 <= k < infos@.len() && (#[trigger] infos@[k]).is_zero ==> r@.contains(k as usize),
{
    let mut out: Vec<usize> = Vec::new();
    let mut k: usize = 0;
    while k < infos.len()
        invariant
            k <= infos@.len(),
            forall|m: int| 0 <= m < out@.len() ==> #[trigger] out@[m] < k && infos@[out@[m] as int].is_zero,
            forall|a: int, b: int| 0 <= a < b < out@.len() ==> #[trigger] out@[a] < #[trigger] out@[b],
            forall|j: int|
                0 <= j < k && (#[trigger] infos@[j]).is_zero ==> out@.contains(j as usize),
        decreases infos.len() - k,
    {
        if infos[k].is_zero {
            let ghost before: Seq<usize> = out@;
            out.push(k);
            proof {
                assert(out@[before.len() as int] == k);
                assert forall|j: int| 0 <= j < k + 1 && (#[trigger] infos@[j]).is_zero implies out@.contains(
                    j as usize,
                ) by {
                    if j < k {
                        let m: int = choose|m: int| 0 <= m < before.len() && before[m] == j as usize;
                        assert(out@[m] == j as usize);
                    }
                }
            }
        }
        k = k + 1;
    }
    out
}

/// The places of the columns in a record do not overlap: each column ends where
/// the next begins, and the last ends with the record.
pub proof fn columns_are_adjacent(infos: Seq<FieldInfo>, k: int)
    requires
        0 <= k < infos.len(),
    ensures
        offset_of(shape_of(infos), k + 1) == offset_of(shape_of(infos), k) + width_of(infos[k].kind),
        offset_of(shape_of(infos), k + 1) <= record_size(shape_of(infos)),
{
    lemma_offsets_grow(shape_of(infos), k + 1);
}

/// A field that is declared a vector of numbers is a column of width one, a vector of
/// arrays one of the arrays' length; it travels and is cleared as its attributes say.
pub proof fn columns_are_as_declared(decl: FieldDecl, infos: Seq<FieldInfo>, k: int)
    requires
        0 <= k < infos.len(),
        declares(decl, infos[k]),
    ensures
        ({
            let f = shape_of(infos)[k];
            &&& f.forward <==> exists|a: int|
                0 <= a < decl.attributes@.len() && (#[trigger] decl.attributes@[a])@ == "forward"@
            &&& f.reverse <==> exists|a: int|
                0 <= a < decl.attributes@.len() && (#[trigger] decl.attributes@[a])@ == "reverse"@
            &&& f.zero <==> exists|a: int|
                0 <= a < decl.attributes@.len() && (#[trigger] decl.attributes@[a])@ == "zero"@
            &&& vector_of(decl.ty) matches Some(inner) && {
                ||| is_number(inner) && f.width == 1
                ||| inner matches TypeExpr::Array(elem, Some(n)) && is_number(*elem) && f.width == n
            }
        }),
{
}

} // verus!

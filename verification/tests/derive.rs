use soil::atom_data::{AtomData, Field};
use soil::columns::{ColumnStore, CommDirection};
use soil::derive_plan::{
    classify_field, column_fields, columns_of, comm_layout, error_message, record_layout,
    zero_members, Argument, Arguments, Declaration, DeriveError, FieldDecl, FieldKind, Segment,
    TypeExpr, TypePath,
};
use soil::input::{banner, prints_banner, wants_schedule};
use soil::scalar::Scalar;

fn named(name: &str) -> TypeExpr {
    TypeExpr::Path(TypePath {
        leading_colon: false,
        segments: vec![Segment { name: name.to_string(), arguments: Arguments::Absent }],
    })
}

fn vec_of(inner: TypeExpr) -> TypeExpr {
    TypeExpr::Path(TypePath {
        leading_colon: false,
        segments: vec![Segment {
            name: "Vec".to_string(),
            arguments: Arguments::Angle(vec![Argument::Type(inner)]),
        }],
    })
}

fn array(n: usize) -> TypeExpr {
    TypeExpr::Array(Box::new(named("f64")), Some(n))
}

fn field(name: &str, ty: TypeExpr, attributes: &[&str]) -> FieldDecl {
    FieldDecl {
        name: name.to_string(),
        ty,
        attributes: attributes.iter().map(|a| a.to_string()).collect(),
    }
}

#[test]
fn fields_are_vectors_of_numbers() {
    assert_eq!(classify_field(&vec_of(named("f64"))), Some(FieldKind::Scalar));
    assert_eq!(classify_field(&vec_of(array(3))), Some(FieldKind::Array(3)));
    assert_eq!(classify_field(&named("f64")), None);
    assert_eq!(classify_field(&vec_of(named("f32"))), None);
    assert_eq!(classify_field(&vec_of(TypeExpr::Array(Box::new(named("f64")), None))), None);
    assert_eq!(classify_field(&vec_of(vec_of(named("f64")))), None);
    assert_eq!(classify_field(&TypeExpr::Other), None);
    let qualified = TypeExpr::Path(TypePath {
        leading_colon: true,
        segments: vec![Segment { name: "f64".to_string(), arguments: Arguments::Absent }],
    });
    assert_eq!(classify_field(&vec_of(qualified)), None);
}

fn rotating() -> Declaration {
    Declaration::Named(vec![
        field("omega", vec_of(array(3)), &["forward"]),
        field("torque", vec_of(array(3)), &["doc", "reverse", "zero"]),
        field("radius", vec_of(named("f64")), &["forward"]),
    ])
}

#[test]
fn columns_have_places_in_records_and_messages() {
    let infos = match columns_of(&rotating()) {
        Ok(infos) => infos,
        Err(e) => panic!("{}", error_message(&e)),
    };
    assert_eq!(record_layout(&infos), (vec![0, 3, 6], 7));
    let forward = comm_layout(&infos, CommDirection::Forward).unwrap();
    assert_eq!((forward.members, forward.offsets, forward.size), (vec![0, 2], vec![0, 3], 4));
    let reverse = comm_layout(&infos, CommDirection::Reverse).unwrap();
    assert_eq!((reverse.members, reverse.offsets, reverse.size), (vec![1], vec![0], 3));
    assert_eq!(zero_members(&infos), vec![1]);

    // The column store with these fields has the same sizes.
    let fields: Vec<Field> = column_fields(&infos);
    let mut store = ColumnStore::new(&fields);
    assert_eq!((store.forward_comm_size(), store.reverse_comm_size()), (4, 3));
    let record: Vec<Scalar> = (0..7).map(|k| Scalar { bits: k }).collect();
    assert_eq!(store.unpack(&record), 7);
    let mut back = Vec::new();
    store.pack(0, &mut back);
    assert_eq!(back, record);
}

#[test]
fn no_column_takes_part_in_no_message() {
    let decl = Declaration::Named(vec![field("a", vec_of(named("f64")), &[])]);
    let infos = columns_of(&decl).ok().unwrap();
    assert!(comm_layout(&infos, CommDirection::Forward).is_none());
    assert!(comm_layout(&infos, CommDirection::Reverse).is_none());
    assert!(zero_members(&infos).is_empty());
}

#[test]
fn declarations_without_columns_are_refused() {
    let message = |d: &Declaration| match columns_of(d) {
        Ok(_) => String::new(),
        Err(e) => error_message(&e),
    };
    assert!(message(&Declaration::NotStruct).contains("not enums or unions"));
    assert!(message(&Declaration::Unnamed).contains("not tuple or unit structs"));
    let bad = Declaration::Named(vec![
        field("good", vec_of(named("f64")), &[]),
        field("bad", named("String"), &[]),
    ]);
    assert!(matches!(columns_of(&bad), Err(DeriveError::Unsupported(name)) if name == "bad"));
    assert!(message(&bad).starts_with("AtomData: field `bad` has an unsupported type."));
}

#[test]
fn banner_is_printed_once() {
    let rank = |r: &str| Some(r.to_string());
    assert!(prints_banner(&None, &None, &None));
    assert!(prints_banner(&rank("0"), &rank("1"), &None));
    assert!(!prints_banner(&None, &rank("1"), &rank("0")));
    assert_eq!(banner().len(), 8);
    assert!(wants_schedule(&vec!["x".to_string(), "--schedule".to_string()]));
    assert!(!wants_schedule(&vec!["x".to_string()]));
}

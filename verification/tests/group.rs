use soil::atom::Atom;
use soil::group::{rebuild_group_masks, rebuild_groups, Group, GroupDef, GroupRegistry};
use soil::region::Region;
use soil::scalar::{Op, Scalar, Vec3};

fn s(x: f64) -> Scalar {
    Scalar { bits: x.to_bits() }
}

fn f(x: Scalar) -> f64 {
    f64::from_bits(x.bits)
}

fn v(x: [f64; 3]) -> Vec3 {
    [s(x[0]), s(x[1]), s(x[2])]
}

fn ar(op: Op, a: Scalar, b: Scalar, c: Scalar) -> Scalar {
    s(match op {
        Op::Add => f(a) + f(b),
        Op::Sub => f(a) - f(b),
        Op::Mul => f(a) * f(b),
        Op::Div => f(a) / f(b),
        Op::Sqrt => f(a).sqrt(),
        Op::MulAdd => f(a).mul_add(f(b), f(c)),
    })
}


fn make_atom(positions: &[(f64, f64, f64)], types: &[u32]) -> Atom {
    let mut atom = Atom::new();
    for (i, (px, py, pz)) in positions.iter().enumerate() {
        atom.push_test_atom(i as u32, v([*px, *py, *pz]), s(0.5), s(1.0), &ar);
        atom.atom_type[i] = types[i];
    }
    atom.nlocal = positions.len() as u32;
    atom
}

fn make_group_def(name: &str, types: Option<Vec<u32>>, region: Option<Region>) -> GroupDef {
    GroupDef {
        name: name.to_string(),
        atom_types: types,
        region,
        dynamic: None,
    }
}

#[test]
fn test_all_group_always_exists() {
    let mut registry = GroupRegistry::new();
    registry.groups.push(Group {
        name: "all".to_string(),
        def: make_group_def("all", None, None),
        mask: Vec::new(),
        count: 0,
    });
    let atom = make_atom(&[(0.0, 0.0, 0.0), (1.0, 1.0, 1.0)], &[0, 1]);
    rebuild_group_masks(&mut registry, &atom, &ar);
    let all = registry.expect("all");
    assert_eq!(all.count, 2);
    assert!(all.mask.iter().all(|&m| m));
}

#[test]
fn test_type_filter() {
    let atom = make_atom(
        &[(0.0, 0.0, 0.0), (1.0, 1.0, 1.0), (2.0, 2.0, 2.0)],
        &[0, 1, 0],
    );
    let def = make_group_def("type0", Some(vec![0]), None);
    let mut registry = GroupRegistry::new();
    registry.groups.push(Group {
        name: "type0".to_string(),
        def,
        mask: Vec::new(),
        count: 0,
    });
    rebuild_group_masks(&mut registry, &atom, &ar);
    let g = registry.expect("type0");
    assert_eq!(g.count, 2);
    assert_eq!(g.mask, vec![true, false, true]);
}

#[test]
fn test_region_filter() {
    let atom = make_atom(
        &[(0.0, 0.0, 1.0), (0.0, 0.0, 3.0), (0.0, 0.0, 5.0)],
        &[0, 0, 0],
    );
    let def = make_group_def(
        "bottom",
        None,
        Some(Region::Block {
            min: v([f64::NEG_INFINITY, f64::NEG_INFINITY, 0.0]),
            max: v([f64::INFINITY, f64::INFINITY, 4.0]),
        }),
    );
    let mut registry = GroupRegistry::new();
    registry.groups.push(Group {
        name: "bottom".to_string(),
        def,
        mask: Vec::new(),
        count: 0,
    });
    rebuild_group_masks(&mut registry, &atom, &ar);
    let g = registry.expect("bottom");
    assert_eq!(g.count, 2);
    assert_eq!(g.mask, vec![true, true, false]);
}

#[test]
fn test_combined_type_and_region() {
    let atom = make_atom(
        &[(0.0, 0.0, 1.0), (0.0, 0.0, 3.0), (0.0, 0.0, 5.0)],
        &[0, 1, 0],
    );
    let def = make_group_def(
        "combo",
        Some(vec![0]),
        Some(Region::Block {
            min: v([f64::NEG_INFINITY, f64::NEG_INFINITY, 0.0]),
            max: v([f64::INFINITY, f64::INFINITY, 4.0]),
        }),
    );
    let mut registry = GroupRegistry::new();
    registry.groups.push(Group {
        name: "combo".to_string(),
        def,
        mask: Vec::new(),
        count: 0,
    });
    rebuild_group_masks(&mut registry, &atom, &ar);
    let g = registry.expect("combo");
    assert_eq!(g.count, 1); // only atom 0 (type 0, z=1.0)
    assert_eq!(g.mask, vec![true, false, false]);
}

#[test]
fn test_empty_group() {
    let atom = make_atom(
        &[(0.0, 0.0, 1.0), (0.0, 0.0, 3.0)],
        &[0, 0],
    );
    let def = make_group_def("empty", Some(vec![99]), None);
    let mut registry = GroupRegistry::new();
    registry.groups.push(Group {
        name: "empty".to_string(),
        def,
        mask: Vec::new(),
        count: 0,
    });
    rebuild_group_masks(&mut registry, &atom, &ar);
    let g = registry.expect("empty");
    assert_eq!(g.count, 0);
    assert!(g.mask.iter().all(|&m| !m));
}

#[test]
fn test_is_dynamic_defaults() {
    // Type-only group: static by default
    let def = make_group_def("type_only", Some(vec![1]), None);
    assert!(!def.is_dynamic());

    // Region group: dynamic by default
    let def = make_group_def(
        "region",
        None,
        Some(Region::Block {
            min: v([0.0, 0.0, 0.0]),
            max: v([1.0, 1.0, 1.0]),
        }),
    );
    assert!(def.is_dynamic());

    // No filters (like "all"): static by default
    let def = make_group_def("all", None, None);
    assert!(!def.is_dynamic());
}

#[test]
fn test_is_dynamic_explicit() {
    // Explicitly dynamic type-only group
    let mut def = make_group_def("type_dyn", Some(vec![1]), None);
    def.dynamic = Some(true);
    assert!(def.is_dynamic());

    // Explicitly static region group
    let mut def = make_group_def(
        "region_static",
        None,
        Some(Region::Block {
            min: v([0.0, 0.0, 0.0]),
            max: v([1.0, 1.0, 1.0]),
        }),
    );
    def.dynamic = Some(false);
    assert!(!def.is_dynamic());
}

#[test]
fn test_static_group_skips_rebuild() {
    let atom = make_atom(
        &[(0.0, 0.0, 1.0), (0.0, 0.0, 3.0), (0.0, 0.0, 5.0)],
        &[0, 1, 0],
    );

    // Create a static type group (dynamic = None, no region → static)
    let def = make_group_def("type0", Some(vec![0]), None);
    assert!(!def.is_dynamic());

    let mut registry = GroupRegistry::new();
    registry.groups.push(Group {
        name: "type0".to_string(),
        def,
        mask: Vec::new(),
        count: 0,
    });

    // First rebuild: mask is empty, so it gets built
    rebuild_group_masks(&mut registry, &atom, &ar);
    assert_eq!(registry.expect("type0").count, 2);
    assert_eq!(registry.expect("type0").mask, vec![true, false, true]);

    // Manually change the mask to verify it's NOT rebuilt
    registry.groups[0].mask = vec![false, false, false];
    registry.groups[0].count = 0;

    // Second rebuild: mask is non-empty and group is static → skipped
    rebuild_group_masks(&mut registry, &atom, &ar);
    assert_eq!(registry.groups[0].mask, vec![false, false, false]);
    assert_eq!(registry.groups[0].count, 0);
}

#[test]
fn test_dynamic_group_rebuilds_every_time() {
    let atom = make_atom(
        &[(0.0, 0.0, 1.0), (0.0, 0.0, 3.0), (0.0, 0.0, 5.0)],
        &[0, 0, 0],
    );

    // Create a dynamic region group
    let def = make_group_def(
        "bottom",
        None,
        Some(Region::Block {
            min: v([f64::NEG_INFINITY, f64::NEG_INFINITY, 0.0]),
            max: v([f64::INFINITY, f64::INFINITY, 4.0]),
        }),
    );
    assert!(def.is_dynamic());

    let mut registry = GroupRegistry::new();
    registry.groups.push(Group {
        name: "bottom".to_string(),
        def,
        mask: Vec::new(),
        count: 0,
    });

    // First rebuild
    rebuild_group_masks(&mut registry, &atom, &ar);
    assert_eq!(registry.expect("bottom").count, 2);

    // Manually change mask
    registry.groups[0].mask = vec![false, false, false];
    registry.groups[0].count = 0;

    // Second rebuild: dynamic group gets rebuilt
    rebuild_group_masks(&mut registry, &atom, &ar);
    assert_eq!(registry.expect("bottom").count, 2);
    assert_eq!(registry.expect("bottom").mask, vec![true, true, false]);
}


#[test]
fn groups_are_rebuilt_before_the_forces() {
    let atom = make_atom(&[(0.0, 0.0, 1.0), (0.0, 0.0, 3.0)], &[0, 1]);
    let mut registry = GroupRegistry::new();
    for (name, types) in [("zero", vec![0]), ("both", vec![0, 1])] {
        registry.groups.push(Group {
            name: name.to_string(),
            def: make_group_def(name, Some(types), None),
            mask: Vec::new(),
            count: 0,
        });
    }
    rebuild_groups(&atom, &mut registry, &ar);
    assert_eq!(registry.expect("zero").mask, vec![true, false]);
    assert_eq!(registry.expect("both").count, 2);
}

use std::collections::HashMap;
use soil::atom::Atom;
use soil::fixes::{apply_pin, setup_pins, PinDef, PinRegistry, PinState, PinnedGroup};
use soil::group::{Group, GroupDef, GroupRegistry};
use soil::scalar::{Op, Scalar, Vec3};

fn s(x: f64) -> Scalar {
    Scalar { bits: x.to_bits() }
}

fn f(x: Scalar) -> f64 {
    f64::from_bits(x.bits)
}

fn v(x: [f64; 3]) -> Vec3 {
    [s(x[0]), s(x[1]), s(x[2])]
}

fn ar(op: Op, a: Scalar, b: Scalar, c: Scalar) -> Scalar {
    s(match op {
        Op::Add => f(a) + f(b),
        Op::Sub => f(a) - f(b),
        Op::Mul => f(a) * f(b),
        Op::Div => f(a) / f(b),
        Op::Sqrt => f(a).sqrt(),
        Op::MulAdd => f(a).mul_add(f(b), f(c)),
    })
}

/// The held positions of a group.
fn positions_of<'a>(state: &'a PinState, group: &str) -> &'a HashMap<u32, Vec3> {
    &state.captured.iter().find(|g| g.group == group).unwrap().positions
}


fn make_atoms(n: usize) -> Atom {
    let mut atom = Atom::new();
    for i in 0..n {
        atom.push_test_atom(i as u32, v([i as f64, 0.0, 0.0]), s(0.5), s(1.0), &ar);
    }
    atom.nlocal = n as u32;
    atom.natoms = n as u64;
    atom.dt = s(0.001);
    atom
}

fn make_group_registry(name: &str, mask: Vec<bool>) -> GroupRegistry {
    let count = mask.iter().filter(|&&m| m).count();
    let mut registry = GroupRegistry::new();
    registry.groups.push(Group {
        name: name.to_string(),
        def: GroupDef {
            name: name.to_string(),
            atom_types: None,
            region: None,
            dynamic: None,
        },
        mask,
        count,
    });
    registry
}

fn make_pin_registry(group: &str) -> PinRegistry {
    PinRegistry {
        pins: vec![PinDef { group: group.to_string() }],
    }
}

#[test]
fn pin_captures_initial_position_and_zeros_state() {
    let mut atoms = make_atoms(2);
    atoms.pos[0] = v([1.0, 2.0, 3.0]);
    atoms.vel[0] = v([0.1, 0.2, 0.3]);
    atoms.force[0] = v([10.0, 20.0, 30.0]);

    let groups = make_group_registry("anchor", vec![true, false]);
    let registry = make_pin_registry("anchor");
    let mut state = PinState::default();

    apply_pin(&mut atoms, &registry, &groups, &mut state);

    let a = &atoms;
    assert_eq!(a.pos[0], v([1.0, 2.0, 3.0]));
    assert_eq!(a.vel[0], v([0.0, 0.0, 0.0]));
    assert_eq!(a.force[0], v([0.0, 0.0, 0.0]));

    let held = &state;
    assert_eq!(positions_of(held, "anchor").len(), 1);
    assert_eq!(positions_of(held, "anchor")[&a.tag[0]], v([1.0, 2.0, 3.0]));
}

#[test]
fn pin_restores_position_from_preloaded_state() {
    let mut atoms = make_atoms(1);
    atoms.pos[0] = v([5.123, 5.456, 5.789]);
    atoms.vel[0] = v([99.0, 99.0, 99.0]);
    atoms.force[0] = v([42.0, 42.0, 42.0]);
    let tag = atoms.tag[0];

    let groups = make_group_registry("anchor", vec![true]);
    let registry = make_pin_registry("anchor");
    let mut state = PinState::default();
    let mut captured = HashMap::new();
    captured.insert(tag, v([5.0, 5.0, 5.0]));
    state.captured.push(PinnedGroup { group: "anchor".to_string(), positions: captured });

    apply_pin(&mut atoms, &registry, &groups, &mut state);

    let a = &atoms;
    assert_eq!(a.pos[0], v([5.0, 5.0, 5.0]));
    assert_eq!(a.vel[0], v([0.0, 0.0, 0.0]));
    assert_eq!(a.force[0], v([0.0, 0.0, 0.0]));
}

#[test]
fn pin_lookup_is_tag_based_and_survives_reordering() {
    let mut atoms = make_atoms(2);
    atoms.tag[0] = 20;
    atoms.tag[1] = 10;
    atoms.pos[0] = v([999.0, 0.0, 0.0]);
    atoms.pos[1] = v([7.999, 0.0, 0.0]);

    let groups = make_group_registry("anchor", vec![false, true]);
    let registry = make_pin_registry("anchor");
    let mut state = PinState::default();
    let mut captured = HashMap::new();
    captured.insert(10u32, v([7.0, 0.0, 0.0]));
    state.captured.push(PinnedGroup { group: "anchor".to_string(), positions: captured });

    apply_pin(&mut atoms, &registry, &groups, &mut state);

    let a = &atoms;
    assert_eq!(a.tag[1], 10, "A's tag preserved");
    assert_eq!(a.pos[1], v([7.0, 0.0, 0.0]), "pin restored A by tag, not index");
    assert_eq!(a.pos[0], v([999.0, 0.0, 0.0]), "B untouched (not in pin group)");
}

#[test]
fn pin_noop_when_mask_empty() {
    let mut atoms = make_atoms(1);
    atoms.pos[0] = v([1.0, 0.0, 0.0]);
    let mut groups = make_group_registry("anchor", vec![]);
    groups.groups[0].mask.clear();
    let registry = make_pin_registry("anchor");
    let mut state = PinState::default();

    apply_pin(&mut atoms, &registry, &groups, &mut state);

    let held = &state;
    assert!(held.captured.is_empty(), "no group captured when mask is empty");
    let a = &atoms;
    assert_eq!(a.pos[0], v([1.0, 0.0, 0.0]), "pos untouched when mask empty");
}

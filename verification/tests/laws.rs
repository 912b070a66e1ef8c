use soil::atom::Atom;
use soil::atom_data::AtomDataRegistry;
use soil::bins::bin_atoms;
use soil::bond::{BondEntry, BondStore};
use soil::comm::{comm_setup, CommTopology};
use soil::deform::{setup_deform, AxisDeformDef, DeformConfig, DeformError, DeformState};
use soil::domain::{decompose_domain, Domain, DomainConfig};
use soil::dump::{BoxInfo, DumpFrame};
use soil::dump_registry::{build_frame, sync_dump_box, DumpRegistry};
use soil::fixes::{apply_pin, setup_pins, PinDef, PinRegistry, PinState};
use soil::group::{group_includes, setup_groups, GroupDef, GroupRegistry};
use soil::neighbor::{neighbor_read_input, Neighbor, NeighborConfig};
use soil::region::{Axis, Region};
use soil::scalar::{from_count, Op, Scalar, Vec3};
use soil::stencil::build_stencil;
use soil::verlet::VelocityVerletPlugin;
use soil::virial::{zero_virial_stress, VirialStress};

fn s(x: f64) -> Scalar {
    Scalar { bits: x.to_bits() }
}

fn f(x: Scalar) -> f64 {
    f64::from_bits(x.bits)
}

fn v(x: [f64; 3]) -> Vec3 {
    [s(x[0]), s(x[1]), s(x[2])]
}

fn ar(op: Op, a: Scalar, b: Scalar, c: Scalar) -> Scalar {
    s(match op {
        Op::Add => f(a) + f(b),
        Op::Sub => f(a) - f(b),
        Op::Mul => f(a) * f(b),
        Op::Div => f(a) / f(b),
        Op::Sqrt => f(a).sqrt(),
        Op::MulAdd => f(a).mul_add(f(b), f(c)),
    })
}

const SAMPLES: [f64; 12] = [
    0.0, -0.0, 1.0, -1.0, 0.5, 2.75, -2.75, 1e300, -1e300, f64::INFINITY, f64::NEG_INFINITY, 5e-324,
];

#[test]
fn numbers_compare_as_the_machine_compares_them() {
    for &x in &SAMPLES {
        for &y in &SAMPLES {
            assert_eq!(s(x).lt(s(y)), x < y, "{} < {}", x, y);
            assert_eq!(s(x).ge(s(y)), x >= y, "{} >= {}", x, y);
            assert_eq!(f(s(x).max(s(y))), x.max(y));
            assert_eq!(f(s(x).min(s(y))), x.min(y));
        }
        assert_eq!(f(s(x).abs()).to_bits(), x.abs().to_bits());
        assert_eq!(f(s(x).neg()).to_bits(), (-x).to_bits());
        assert_eq!(s(x).to_u64(), x as u64);
        assert_eq!(s(x).to_u32(), x as u32);
        assert_eq!(s(x).to_i32(), x as i32);
        assert_eq!(s(x).floor_i32(), x.floor() as i32);
        assert_eq!(s(x).ceil_i32(), x.ceil() as i32);
        assert_eq!(s(x).is_zero(), x == 0.0);
    }
    let nan = s(f64::NAN);
    assert!(nan.is_nan() && !nan.lt(s(1.0)) && !s(1.0).lt(nan) && !nan.ge(nan));
    assert_eq!(nan.max(s(1.0)), s(1.0));
    assert_eq!(s(1.0).min(nan), s(1.0));
    assert_eq!((nan.to_u64(), nan.to_i32()), (0, 0));
    assert_eq!(s(7.5).clamp(s(0.0), s(5.0)), s(5.0));
    assert_eq!(s(-7.5).clamp(s(0.0), s(5.0)), s(0.0));
}

#[test]
fn integers_become_numbers_and_return() {
    for x in [0u64, 1, 2, 3, 1000, 4294967295, 9007199254740991, 9007199254740992] {
        assert_eq!(Scalar::from_u64(x), s(x as f64));
        assert_eq!(Scalar::from_u64(x).to_u64(), x);
    }
    for x in [0i32, 1, -1, i32::MIN, i32::MAX, -12345] {
        assert_eq!(Scalar::from_i32(x), s(x as f64));
        assert_eq!(Scalar::from_i32(x).to_i32(), x);
    }
    for x in [9007199254740993u64, 9007199254740995, u64::MAX, u64::MAX - 1025, 1 << 63] {
        assert_eq!(from_count(&ar, x), s(x as f64));
    }
}

#[test]
fn bins_keep_the_order_of_their_atoms() {
    let cells = vec![2, 0, 2, 1, 0, 2];
    let bins = bin_atoms(&cells, 3);
    assert_eq!(bins.start, vec![0, 2, 3, 6]);
    assert_eq!(bins.sorted, vec![1, 4, 3, 0, 2, 5]);
}

#[test]
fn stencils_are_symmetric() {
    let st = build_stencil([2, 2, 2], [1, 1, 1], v([1.0, 1.0, 1.0]), s(1.0), &ar);
    assert_eq!(st.count, [4, 4, 4]);
    assert_eq!(st.total_cells, 64);
    assert!(st.has_self);
    for &o in &st.full {
        assert!(st.full.contains(&-o));
    }
    assert!(st.forward.iter().all(|&o| o > 0 && st.full.contains(&o)));
    assert_eq!(st.full.len(), 2 * st.forward.len() + 1);
    assert_eq!(st.forward.len(), 13);
}

#[test]
fn neighbors_are_each_others_neighbors() {
    let decomp = [3, 1, 1];
    let mut topos = Vec::new();
    for x in 0..3 {
        let mut topo = CommTopology::new();
        comm_setup(&mut topo, decomp, [x, 0, 0], [true, false, false]);
        topos.push(topo);
    }
    for x in 0..3usize {
        let up = topos[x].swap_directions[1][0];
        assert_eq!(topos[up as usize].swap_directions[0][0], x as i32);
        assert_eq!(topos[x].swap_directions[0][1], -1);
    }
    assert_eq!(topos[2].periodic_swap[1][0], s(-1.0));
    assert_eq!(topos[0].periodic_swap[0][0], s(1.0));
}

#[test]
fn parts_of_the_box_share_faces() {
    let config = DomainConfig { x_low: s(-1.0), x_high: s(0.3), ..Default::default() };
    let parts: Vec<Domain> =
        (0..7).map(|x| decompose_domain(&config, [7, 1, 1], [x, 0, 0], &ar)).collect();
    for k in 0..6 {
        assert_eq!(parts[k].sub_domain_high[0], parts[k + 1].sub_domain_low[0]);
    }
    assert_eq!(parts[0].sub_domain_low[0], s(-1.0));
}

#[test]
fn most_frequent_virial_request_counts() {
    let mut w = VirialStress::default();
    w.set_interval(0);
    assert_eq!(w.interval, None);
    w.set_interval(50);
    w.set_interval(20);
    w.set_interval(100);
    assert_eq!(w.interval, Some(20));
    w.add_pair(s(1.0), s(1.0), s(1.0), s(1.0), s(1.0), s(1.0), &ar);
    zero_virial_stress(&mut w, 30);
    assert!(!w.active && w.xx == s(1.0));
    zero_virial_stress(&mut w, 40);
    assert!(w.active && w.xx == s(0.0));
}

#[test]
fn held_atoms_stay_held() {
    let mut atoms = Atom::new();
    atoms.push_test_atom(4, v([1.0, 2.0, 3.0]), s(0.5), s(1.0), &ar);
    atoms.nlocal = 1;
    let mut groups = GroupRegistry::new();
    setup_groups(&mut groups, 0, vec![], &atoms, &ar);
    let pins = PinRegistry { pins: vec![PinDef { group: "all".to_string() }] };
    assert!(setup_pins(&pins, &groups));
    assert!(!setup_pins(&PinRegistry { pins: vec![PinDef { group: "x".to_string() }] }, &groups));
    let mut state = PinState::default();
    apply_pin(&mut atoms, &pins, &groups, &mut state);
    for _ in 0..3 {
        atoms.pos[0] = v([9.0, 9.0, 9.0]);
        atoms.vel[0] = v([1.0, 1.0, 1.0]);
        apply_pin(&mut atoms, &pins, &groups, &mut state);
        assert_eq!(atoms.pos[0], v([1.0, 2.0, 3.0]));
        assert_eq!(atoms.vel[0], v([0.0; 3]));
    }
}

#[test]
fn groups_are_defined_and_overlaid() {
    let mut atoms = Atom::new();
    for (tag, kind) in [(1, 1), (2, 2), (3, 1)] {
        atoms.push_test_atom(tag, v([0.0; 3]), s(0.5), s(1.0), &ar);
        let last = atoms.atom_type.len() - 1;
        atoms.atom_type[last] = kind;
    }
    atoms.nlocal = 3;
    let def = |name: &str, kind: u32| GroupDef {
        name: name.to_string(),
        atom_types: Some(vec![kind]),
        region: None,
        dynamic: None,
    };
    let mut groups = GroupRegistry::new();
    // The built-in group cannot be redefined.
    setup_groups(&mut groups, 0, vec![def("all", 2), def("ones", 1)], &atoms, &ar);
    assert_eq!(groups.groups.len(), 2);
    assert_eq!(groups.expect("all").count, 3);
    assert_eq!(groups.expect("ones").mask, vec![true, false, true]);
    // A later stage replaces and adds.
    setup_groups(&mut groups, 1, vec![def("ones", 2), def("twos", 2)], &atoms, &ar);
    assert_eq!(groups.expect("ones").mask, vec![false, true, false]);
    assert_eq!(groups.expect("twos").count, 1);
    assert_eq!(groups.mask_for(&Some("twos".to_string())), Some(&[false, true, false][..]));
    assert_eq!(groups.mask_for(&None), None);
    assert!(group_includes(None, 7) && !group_includes(Some(&[false]), 0));
    assert!(groups.validate_name("all") && !groups.validate_name("none"));
}

#[test]
fn axes_are_taken_apart_and_put_together() {
    // The closest point of a cylinder's wall lies at the height of the point.
    for (axis, p, q) in [
        (Axis::X, [2.0, 3.0, 0.0], [2.0, 1.0, 0.0]),
        (Axis::Y, [3.0, 2.0, 0.0], [1.0, 2.0, 0.0]),
        (Axis::Z, [3.0, 0.0, 2.0], [1.0, 0.0, 2.0]),
    ] {
        let r = Region::Cylinder { center: [s(0.0), s(0.0)], radius: s(1.0), axis, lo: s(0.0), hi: s(4.0) };
        let sr = r.closest_point_on_surface(&v(p), &ar);
        assert_eq!(sr.point, v(q));
        assert_eq!(f(sr.distance), 2.0);
    }
}

#[test]
fn deformations_are_refused_for_each_missing_field() {
    let def = |style: &str| AxisDeformDef {
        style: style.to_string(),
        rate: None,
        velocity: None,
        lo: None,
        hi: None,
    };
    let mut with_lo = def("final");
    with_lo.lo = Some(s(0.0));
    for (d, e) in [
        (def("erate"), DeformError::MissingRate),
        (def("vel"), DeformError::MissingVelocity),
        (def("final"), DeformError::MissingLo),
        (with_lo, DeformError::MissingHi),
        (def("other"), DeformError::UnknownStyle),
    ] {
        let config = DeformConfig { x: None, y: Some(d), z: None, remap: false };
        let mut state = DeformState { axes: [None, None, None], remap: true, step: 5, initialized: false };
        assert_eq!(setup_deform(&mut state, &config, &Domain::new()), Err(e));
        assert!(!state.initialized && state.step == 5);
    }
    let config = DeformConfig { x: None, y: None, z: None, remap: false };
    let mut state = DeformState { axes: [None, None, None], remap: true, step: 5, initialized: false };
    assert_eq!(setup_deform(&mut state, &config, &Domain::new()), Ok(()));
    assert!(state.initialized && state.step == 0 && !state.has_any());
}

#[test]
fn frames_carry_the_box() {
    let mut registry: DumpRegistry<(), (), ()> = DumpRegistry::new();
    let mut domain = Domain::new();
    domain.boundaries_high = v([2.0, 3.0, 4.0]);
    sync_dump_box(&domain, &mut registry);
    let frame: DumpFrame =
        build_frame(&Atom::new(), false, 1, registry.box_info(), &vec![], &vec![]);
    assert_eq!(frame.box_info.high, v([2.0, 3.0, 4.0]));
    assert_eq!(BoxInfo::default().periodic, [true; 3]);
    registry.register_vector("w".to_string(), ());
    assert!(registry.has_callbacks());
}

#[test]
fn stores_are_changed_through_the_registry() {
    let mut registry = AtomDataRegistry::new();
    registry.register(3, BondStore::new());
    assert!(registry.get(4).is_none() && registry.get_mut(4).is_none());
    if let Some(store) = registry.get_mut(3) {
        store.bonds.push(vec![BondEntry { partner_tag: 1, bond_type: 1, r0: s(1.0) }]);
    }
    assert_eq!(registry.get(3).unwrap().bonds.len(), 1);
}

#[test]
fn settings_are_taken_over() {
    let mut neighbor = Neighbor::new();
    let mut config = NeighborConfig::default();
    config.every = 7;
    config.skin_fraction = s(1.5);
    neighbor_read_input(&config, &mut neighbor);
    assert_eq!((neighbor.every, neighbor.skin_fraction), (7, s(1.5)));
    assert_eq!(VelocityVerletPlugin::for_stage("settle").stage.as_deref(), Some("settle"));
    assert!(VelocityVerletPlugin::new().stage.is_none());
    let mut atoms = Atom::new();
    assert_eq!(atoms.get_max_tag(), 0);
    atoms.push_test_atom(9, v([0.0; 3]), s(0.5), s(1.0), &ar);
    assert_eq!((atoms.get_max_tag(), atoms.is_empty()), (9, false));
}

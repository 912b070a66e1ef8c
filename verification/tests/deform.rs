use soil::atom::Atom;
use soil::deform::{
    apply_deform, deform_message, parse_axis_def, setup_deform, total_steps, AxisDeform, AxisDeformDef, DeformConfig,
    DeformError, DeformState, DeformStyle,
};
use soil::domain::Domain;
use soil::neighbor::Neighbor;
use soil::scalar::{Op, Scalar, Vec3};

fn s(x: f64) -> Scalar {
    Scalar { bits: x.to_bits() }
}

fn f(x: Scalar) -> f64 {
    f64::from_bits(x.bits)
}

fn v(x: [f64; 3]) -> Vec3 {
    [s(x[0]), s(x[1]), s(x[2])]
}

fn ar(op: Op, a: Scalar, b: Scalar, c: Scalar) -> Scalar {
    s(match op {
        Op::Add => f(a) + f(b),
        Op::Sub => f(a) - f(b),
        Op::Mul => f(a) * f(b),
        Op::Div => f(a) / f(b),
        Op::Sqrt => f(a).sqrt(),
        Op::MulAdd => f(a).mul_add(f(b), f(c)),
    })
}


/// `n` atoms laid out along x.
fn make_atoms(n: usize) -> Atom {
    let mut atom = Atom::new();
    for i in 0..n {
        atom.push_test_atom(i as u32, v([i as f64, 0.0, 0.0]), s(0.5), s(1.0), &ar);
    }
    atom.nlocal = n as u32;
    atom.natoms = n as u64;
    atom.dt = s(0.001);
    atom
}

fn make_domain(lo: [f64; 3], hi: [f64; 3]) -> Domain {
    let size = [hi[0] - lo[0], hi[1] - lo[1], hi[2] - lo[2]];
    Domain {
        boundaries_low: v(lo),
        boundaries_high: v(hi),
        sub_domain_low: v(lo),
        sub_domain_high: v(hi),
        sub_length: v(size),
        size: v(size),
        volume: s(size[0] * size[1] * size[2]),
        boundary_type: Default::default(),
        shrink_wrap_padding: s(0.0),
        bounds_changed: false,
        ghost_cutoff: s(0.0),
    }
}

fn make_neighbor() -> Neighbor {
    Neighbor::new()
}

/// The steps of all stages, from what each has counted and was given.
fn make_run_state(total: u32) -> usize {
    total_steps(&vec![0], &vec![total])
}

#[test]
fn erate_shrinks_box_symmetrically() {
    let mut domain = make_domain([0.0, 0.0, 0.0], [1.0, 1.0, 1.0]);
    let mut atoms = make_atoms(0);
    atoms.dt = s(0.001);
    let mut neighbor = make_neighbor();
    let run_state = make_run_state(1000);

    let mut state = DeformState {
        axes: [
            None,
            None,
            Some(AxisDeform {
                style: DeformStyle::Erate { rate: s(-1.0) },
                lo_0: s(0.0),
                hi_0: s(1.0),
            }),
        ],
        remap: true,
        step: 0,
        initialized: true,
    };

    // After 1 step with rate=-1.0, dt=0.001:
    // scale = 1 + (-1.0) * 0.001 * 1 = 0.999
    // new L = 1.0 * 0.999 = 0.999
    // center = 0.5 => new_lo = 0.5 - 0.4995 = 0.0005, new_hi = 0.5 + 0.4995 = 0.9995
    assert!(apply_deform(&mut atoms, &mut domain, &mut state, &mut neighbor, run_state, &ar).is_none());

    let d = &domain;
    assert!((f(d.boundaries_low[2]) - 0.0005).abs() < 1e-12);
    assert!((f(d.boundaries_high[2]) - 0.9995).abs() < 1e-12);
    assert!((f(d.size[2]) - 0.999).abs() < 1e-12);
    // x and y should be unchanged
    assert!((f(d.boundaries_low[0])).abs() < 1e-12);
    assert!((f(d.boundaries_high[0]) - 1.0).abs() < 1e-12);
}

#[test]
fn vel_expands_box() {
    let mut atoms = make_atoms(0);
    atoms.dt = s(0.01);
    let mut domain = make_domain([0.0, 0.0, 0.0], [1.0, 1.0, 1.0]);
    let mut neighbor = make_neighbor();
    let run_state = make_run_state(100);

    let mut state = DeformState {
        axes: [
            Some(AxisDeform {
                style: DeformStyle::Vel { velocity: s(1.0) },
                lo_0: s(0.0),
                hi_0: s(1.0),
            }),
            None,
            None,
        ],
        remap: true,
        step: 0,
        initialized: true,
    };

    assert!(apply_deform(&mut atoms, &mut domain, &mut state, &mut neighbor, run_state, &ar).is_none());

    // After 1 step: delta = 1.0 * 0.01 * 1 = 0.01
    // new_l = 1.0 + 0.01 = 1.01, center = 0.5
    // new_lo = 0.5 - 0.505 = -0.005, new_hi = 0.5 + 0.505 = 1.005
    let d = &domain;
    assert!((f(d.size[0]) - 1.01).abs() < 1e-12);
}

#[test]
fn final_ramps_to_target() {
    let mut atoms = make_atoms(0);
    atoms.dt = s(0.001);
    let mut domain = make_domain([0.0, 0.0, 0.0], [1.0, 1.0, 1.0]);
    let mut neighbor = make_neighbor();
    let run_state = make_run_state(10); // 10 total steps

    let mut state = DeformState {
        axes: [
            None,
            Some(AxisDeform {
                style: DeformStyle::Final {
                    target_lo: s(0.1),
                    target_hi: s(0.9),
                },
                lo_0: s(0.0),
                hi_0: s(1.0),
            }),
            None,
        ],
        remap: true,
        step: 0,
        initialized: true,
    };


    // Run 10 steps
    for _ in 0..10 {
        assert!(apply_deform(&mut atoms, &mut domain, &mut state, &mut neighbor, run_state, &ar).is_none());
    }

    let d = &domain;
    // After 10 steps of 10 total: frac = 1.0
    // new_lo = 0.0 + (0.1 - 0.0) * 1.0 = 0.1
    // new_hi = 1.0 + (0.9 - 1.0) * 1.0 = 0.9
    assert!((f(d.boundaries_low[1]) - 0.1).abs() < 1e-10);
    assert!((f(d.boundaries_high[1]) - 0.9).abs() < 1e-10);
}

#[test]
fn remap_scales_atom_positions() {
    let mut atoms = Atom::new();
    atoms.dt = s(0.001);
    // Place atom at center of box
    atoms.push_test_atom(0, v([0.5, 0.5, 0.5]), s(0.1), s(1.0), &ar);
    // Place atom at 3/4 of box
    atoms.push_test_atom(1, v([0.75, 0.5, 0.75]), s(0.1), s(1.0), &ar);
    atoms.nlocal = 2;
    atoms.natoms = 2;

    let mut domain = make_domain([0.0, 0.0, 0.0], [1.0, 1.0, 1.0]);
    let mut neighbor = make_neighbor();
    let run_state = make_run_state(1000);

    let mut state = DeformState {
        axes: [
            None,
            None,
            Some(AxisDeform {
                style: DeformStyle::Erate { rate: s(-1.0) },
                lo_0: s(0.0),
                hi_0: s(1.0),
            }),
        ],
        remap: true,
        step: 0,
        initialized: true,
    };

    assert!(apply_deform(&mut atoms, &mut domain, &mut state, &mut neighbor, run_state, &ar).is_none());

    let a = &atoms;
    let d = &domain;

    // Atom 0 at center should stay at center
    let center_z = (f(d.boundaries_low[2]) + f(d.boundaries_high[2])) * 0.5;
    assert!(
        (f(a.pos[0][2]) - center_z).abs() < 1e-12,
        "Center atom should stay at center: {} vs {}",
        f(a.pos[0][2]),
        center_z
    );

    // x positions should be unchanged (no x deform)
    assert!((f(a.pos[0][0]) - 0.5).abs() < 1e-12);
    assert!((f(a.pos[1][0]) - 0.75).abs() < 1e-12);
}

#[test]
fn no_remap_leaves_atoms_in_place() {
    let mut atoms = Atom::new();
    atoms.dt = s(0.001);
    atoms.push_test_atom(0, v([0.5, 0.5, 0.5]), s(0.1), s(1.0), &ar);
    atoms.nlocal = 1;
    atoms.natoms = 1;

    let mut domain = make_domain([0.0, 0.0, 0.0], [1.0, 1.0, 1.0]);
    let mut neighbor = make_neighbor();
    let run_state = make_run_state(1000);

    let mut state = DeformState {
        axes: [
            None,
            None,
            Some(AxisDeform {
                style: DeformStyle::Erate { rate: s(-1.0) },
                lo_0: s(0.0),
                hi_0: s(1.0),
            }),
        ],
        remap: false,
        step: 0,
        initialized: true,
    };

    assert!(apply_deform(&mut atoms, &mut domain, &mut state, &mut neighbor, run_state, &ar).is_none());

    let a = &atoms;
    // Position should be unchanged
    assert!((f(a.pos[0][2]) - 0.5).abs() < 1e-12);
}

#[test]
fn multiple_axes_deform_independently() {
    let mut atoms = make_atoms(0);
    atoms.dt = s(0.01);
    let mut domain = make_domain([0.0, 0.0, 0.0], [1.0, 1.0, 1.0]);
    let mut neighbor = make_neighbor();
    let run_state = make_run_state(100);

    let mut state = DeformState {
        axes: [
            Some(AxisDeform {
                style: DeformStyle::Vel { velocity: s(1.0) },
                lo_0: s(0.0),
                hi_0: s(1.0),
            }),
            None,
            Some(AxisDeform {
                style: DeformStyle::Erate { rate: s(-0.5) },
                lo_0: s(0.0),
                hi_0: s(1.0),
            }),
        ],
        remap: true,
        step: 0,
        initialized: true,
    };

    assert!(apply_deform(&mut atoms, &mut domain, &mut state, &mut neighbor, run_state, &ar).is_none());

    let d = &domain;

    // X: vel=1.0, dt=0.01, step=1 => delta=0.01, new_l=1.01
    assert!((f(d.size[0]) - 1.01).abs() < 1e-12);

    // Y: unchanged
    assert!((f(d.size[1]) - 1.0).abs() < 1e-12);

    // Z: erate=-0.5, dt=0.01, step=1 => scale = 1 + (-0.5)*0.01*1 = 0.995
    assert!((f(d.size[2]) - 0.995).abs() < 1e-12);
}

#[test]
fn volume_updates_correctly() {
    let mut atoms = make_atoms(0);
    atoms.dt = s(0.001);
    let mut domain = make_domain([0.0, 0.0, 0.0], [2.0, 3.0, 4.0]);
    let mut neighbor = make_neighbor();
    let run_state = make_run_state(1000);

    let mut state = DeformState {
        axes: [
            None,
            None,
            Some(AxisDeform {
                style: DeformStyle::Erate { rate: s(-1.0) },
                lo_0: s(0.0),
                hi_0: s(4.0),
            }),
        ],
        remap: true,
        step: 0,
        initialized: true,
    };

    assert!(apply_deform(&mut atoms, &mut domain, &mut state, &mut neighbor, run_state, &ar).is_none());

    let d = &domain;
    let expected_vol = f(d.size[0]) * f(d.size[1]) * f(d.size[2]);
    assert!((f(d.volume) - expected_vol).abs() < 1e-10);
}

#[test]
fn parse_erate_config() {
    let def = AxisDeformDef {
        style: "erate".to_string(),
        rate: Some(s(-0.001)),
        velocity: None,
        lo: None,
        hi: None,
    };
    let axis = parse_axis_def(&Some(def)).unwrap().unwrap();
    match axis.style {
        DeformStyle::Erate { rate } => assert!((f(rate) - (-0.001)).abs() < 1e-15),
        _ => panic!("Expected Erate style"),
    }
}

#[test]
fn parse_vel_config() {
    let def = AxisDeformDef {
        style: "vel".to_string(),
        rate: None,
        velocity: Some(s(0.5)),
        lo: None,
        hi: None,
    };
    let axis = parse_axis_def(&Some(def)).unwrap().unwrap();
    match axis.style {
        DeformStyle::Vel { velocity } => assert!((f(velocity) - 0.5).abs() < 1e-15),
        _ => panic!("Expected Vel style"),
    }
}

#[test]
fn parse_final_config() {
    let def = AxisDeformDef {
        style: "final".to_string(),
        rate: None,
        velocity: None,
        lo: Some(s(0.1)),
        hi: Some(s(0.9)),
    };
    let axis = parse_axis_def(&Some(def)).unwrap().unwrap();
    match axis.style {
        DeformStyle::Final {
            target_lo,
            target_hi,
        } => {
            assert!((f(target_lo) - 0.1).abs() < 1e-15);
            assert!((f(target_hi) - 0.9).abs() < 1e-15);
        }
        _ => panic!("Expected Final style"),
    }
}

#[test]
fn none_axis_returns_none() {
    assert!(parse_axis_def(&None).unwrap().is_none());
}

#[test]
#[should_panic(expected = "requires 'rate' field")]
fn erate_missing_rate_panics() {
    let def = AxisDeformDef {
        style: "erate".to_string(),
        rate: None,
        velocity: None,
        lo: None,
        hi: None,
    };
    if let Err(e) = parse_axis_def(&Some(def)) {
        panic!("{}", deform_message(e, "z", "erate"));
    }
}

#[test]
#[should_panic(expected = "unknown style")]
fn unknown_style_panics() {
    let def = AxisDeformDef {
        style: "wiggle".to_string(),
        rate: None,
        velocity: None,
        lo: None,
        hi: None,
    };
    if let Err(e) = parse_axis_def(&Some(def)) {
        panic!("{}", deform_message(e, "x", "wiggle"));
    }
}

#[test]
fn collapse_names_axis_and_bounds() {
    let mut atoms = make_atoms(0);
    atoms.dt = s(1.0);
    let mut domain = make_domain([0.0, 0.0, 0.0], [2.0, 2.0, 2.0]);
    let mut neighbor = make_neighbor();
    let shrink = AxisDeform {
        style: DeformStyle::Vel { velocity: s(-4.0) },
        lo_0: s(0.0),
        hi_0: s(2.0),
    };
    let mut state =
        DeformState { axes: [None, Some(shrink), None], remap: true, step: 0, initialized: true };
    let c = apply_deform(&mut atoms, &mut domain, &mut state, &mut neighbor, 10, &ar).unwrap();
    assert_eq!((c.axis, f(c.lo), f(c.hi)), (1, 2.0, 0.0));
}

#[test]
fn remapped_atoms_keep_their_relative_place() {
    let mut atoms = Atom::new();
    atoms.dt = s(0.5);
    for (k, x) in [1.0, 2.0, 3.5].iter().enumerate() {
        atoms.push_test_atom(k as u32, v([0.5, 0.5, *x]), s(0.1), s(1.0), &ar);
    }
    atoms.nlocal = 3;
    atoms.natoms = 3;
    let mut domain = make_domain([0.0, 0.0, 0.0], [1.0, 1.0, 4.0]);
    let mut neighbor = make_neighbor();
    let before: Vec<f64> = (0..3).map(|i| f(atoms.pos[i][2]) / 4.0).collect();
    let mut state = DeformState {
        axes: [
            None,
            None,
            Some(AxisDeform {
                style: DeformStyle::Erate { rate: s(-1.0) },
                lo_0: s(0.0),
                hi_0: s(4.0),
            }),
        ],
        remap: true,
        step: 0,
        initialized: true,
    };
    assert!(apply_deform(&mut atoms, &mut domain, &mut state, &mut neighbor, make_run_state(8), &ar)
        .is_none());
    let (lo, hi) = (f(domain.boundaries_low[2]), f(domain.boundaries_high[2]));
    assert!(hi - lo < 4.0);
    for i in 0..3 {
        assert!(((f(atoms.pos[i][2]) - lo) / (hi - lo) - before[i]).abs() < 1e-12);
    }
}

use soil::domain::{
    decompose_domain, shrink_wrap_update, BoundaryType, Domain, DomainConfig,
};
use soil::scalar::{Op, Scalar, Vec3};

fn s(x: f64) -> Scalar {
    Scalar { bits: x.to_bits() }
}

fn f(x: Scalar) -> f64 {
    f64::from_bits(x.bits)
}

fn v(x: [f64; 3]) -> Vec3 {
    [s(x[0]), s(x[1]), s(x[2])]
}

fn ar(op: Op, a: Scalar, b: Scalar, c: Scalar) -> Scalar {
    s(match op {
        Op::Add => f(a) + f(b),
        Op::Sub => f(a) - f(b),
        Op::Mul => f(a) * f(b),
        Op::Div => f(a) / f(b),
        Op::Sqrt => f(a).sqrt(),
        Op::MulAdd => f(a).mul_add(f(b), f(c)),
    })
}


#[test]
fn cartesian_single_proc_full_domain() {
    let config = DomainConfig {
        x_low: s(0.0),
        x_high: s(10.0),
        y_low: s(0.0),
        y_high: s(5.0),
        z_low: s(0.0),
        z_high: s(2.0),
        boundary_x: BoundaryType::Periodic,
        boundary_y: BoundaryType::Fixed,
        boundary_z: BoundaryType::Periodic,
        ..Default::default()
    };
    let domain = decompose_domain(&config, [1, 1, 1], [0, 0, 0], &ar);

    assert_eq!(domain.boundaries_low, v([0.0, 0.0, 0.0]));
    assert_eq!(domain.boundaries_high, v([10.0, 5.0, 2.0]));
    assert_eq!(domain.sub_domain_low, v([0.0, 0.0, 0.0]));
    assert_eq!(domain.sub_domain_high, v([10.0, 5.0, 2.0]));
    assert!(domain.is_periodic(0));
    assert!(!domain.is_periodic(1));
    assert!(domain.is_periodic(2));
    assert!((f(domain.volume) - 100.0).abs() < 1e-10);
}

#[test]
fn cartesian_multi_proc_subdivides() {
    let config = DomainConfig {
        x_low: s(0.0),
        x_high: s(10.0),
        y_low: s(0.0),
        y_high: s(10.0),
        z_low: s(0.0),
        z_high: s(10.0),
        ..Default::default()
    };
    // Simulate proc at position (1,0,0) in a 2x1x1 decomposition
    let domain = decompose_domain(&config, [2, 1, 1], [1, 0, 0], &ar);

    assert!((f(domain.sub_domain_low[0]) - 5.0).abs() < 1e-10);
    assert!((f(domain.sub_domain_high[0]) - 10.0).abs() < 1e-10);
    assert!((f(domain.sub_length[0]) - 5.0).abs() < 1e-10);
}

// ── Boundary type tests ────────────────────────────────────────────────

#[test]
fn boundary_types_array() {
    let config = DomainConfig {
        boundary_x: BoundaryType::Periodic,
        boundary_y: BoundaryType::Fixed,
        boundary_z: BoundaryType::ShrinkWrap,
        ..Default::default()
    };
    let types = config.boundary_types();
    assert_eq!(types, [BoundaryType::Periodic, BoundaryType::Fixed, BoundaryType::ShrinkWrap]);
}

#[test]
fn shrink_wrap_decomposition() {
    let config = DomainConfig {
        x_low: s(0.0),
        x_high: s(10.0),
        y_low: s(0.0),
        y_high: s(10.0),
        z_low: s(0.0),
        z_high: s(20.0),
        boundary_z: BoundaryType::ShrinkWrap,
        ..Default::default()
    };
    let domain = decompose_domain(&config, [1, 1, 1], [0, 0, 0], &ar);

    assert!(domain.is_periodic(0));
    assert!(domain.is_periodic(1));
    assert!(!domain.is_periodic(2));
    assert!(!domain.is_shrink_wrap(0));
    assert!(!domain.is_shrink_wrap(1));
    assert!(domain.is_shrink_wrap(2));
    assert_eq!(domain.boundary_type[2], BoundaryType::ShrinkWrap);
}

// ── Shrink-wrap update tests ────────────────────────────────────────────

// ── Shrink-wrap system tests ───────────────────────────────────────────

#[test]
fn shrink_wrap_expands_to_atom_positions() {
    let mut domain = Domain::new();
    domain.boundaries_low = v([0.0, 0.0, 0.0]);
    domain.boundaries_high = v([10.0, 10.0, 10.0]);
    domain.sub_domain_low = v([0.0, 0.0, 0.0]);
    domain.sub_domain_high = v([10.0, 10.0, 10.0]);
    domain.size = v([10.0, 10.0, 10.0]);
    domain.sub_length = v([10.0, 10.0, 10.0]);
    domain.boundary_type = [BoundaryType::Periodic, BoundaryType::Periodic, BoundaryType::ShrinkWrap];
    domain.shrink_wrap_padding = s(0.5);

    let positions = vec![
        v([1.0, 2.0, 3.0]),
        v([5.0, 5.0, 8.0]),
        v([9.0, 1.0, 1.0]),
    ];

    let changed = shrink_wrap_update(&mut domain, &positions, 3, &ar);
    assert!(changed);
    // z bounds should wrap to [min_z - padding, max_z + padding] = [1.0 - 0.5, 8.0 + 0.5]
    assert!((f(domain.boundaries_low[2]) - 0.5).abs() < 1e-10);
    assert!((f(domain.boundaries_high[2]) - 8.5).abs() < 1e-10);
    // x and y should be unchanged (not shrink-wrap)
    assert!((f(domain.boundaries_low[0]) - 0.0).abs() < 1e-10);
    assert!((f(domain.boundaries_high[0]) - 10.0).abs() < 1e-10);
    assert!(domain.bounds_changed);
}

#[test]
fn shrink_wrap_no_change_when_within_tolerance() {
    // Set bounds to exactly match what shrink_wrap would compute:
    // z positions are [3.0, 8.0, 1.0], so min=1.0, max=8.0
    // With padding=0.5: low=0.5, high=8.5
    let mut domain = Domain::new();
    domain.boundaries_low = v([0.0, 0.0, 0.5]);
    domain.boundaries_high = v([10.0, 10.0, 8.5]);
    domain.sub_domain_low = v([0.0, 0.0, 0.5]);
    domain.sub_domain_high = v([10.0, 10.0, 8.5]);
    domain.size = v([10.0, 10.0, 8.0]);
    domain.sub_length = v([10.0, 10.0, 8.0]);
    domain.boundary_type = [BoundaryType::Periodic, BoundaryType::Periodic, BoundaryType::ShrinkWrap];
    domain.shrink_wrap_padding = s(0.5);
    domain.bounds_changed = false;

    let positions = vec![
        v([1.0, 2.0, 3.0]),
        v([5.0, 5.0, 8.0]),
        v([9.0, 1.0, 1.0]),
    ];

    let changed = shrink_wrap_update(&mut domain, &positions, 3, &ar);
    assert!(!changed);
    assert!(!domain.bounds_changed);
}

#[test]
fn shrink_wrap_no_atoms_is_noop() {
    let mut domain = Domain::new();
    domain.boundary_type = [BoundaryType::ShrinkWrap, BoundaryType::ShrinkWrap, BoundaryType::ShrinkWrap];
    domain.bounds_changed = false;
    let positions: Vec<Vec3> = vec![];

    let changed = shrink_wrap_update(&mut domain, &positions, 0, &ar);
    assert!(!changed);
}

#[test]
fn shrink_wrap_all_axes() {
    let mut domain = Domain::new();
    domain.boundaries_low = v([0.0, 0.0, 0.0]);
    domain.boundaries_high = v([100.0, 100.0, 100.0]);
    domain.sub_domain_low = v([0.0, 0.0, 0.0]);
    domain.sub_domain_high = v([100.0, 100.0, 100.0]);
    domain.size = v([100.0, 100.0, 100.0]);
    domain.sub_length = v([100.0, 100.0, 100.0]);
    domain.boundary_type = [BoundaryType::ShrinkWrap, BoundaryType::ShrinkWrap, BoundaryType::ShrinkWrap];
    domain.shrink_wrap_padding = s(1.0);

    let positions = vec![
        v([10.0, 20.0, 30.0]),
        v([50.0, 60.0, 70.0]),
    ];

    let changed = shrink_wrap_update(&mut domain, &positions, 2, &ar);
    assert!(changed);
    // x: [10-1, 50+1] = [9, 51]
    assert!((f(domain.boundaries_low[0]) - 9.0).abs() < 1e-10);
    assert!((f(domain.boundaries_high[0]) - 51.0).abs() < 1e-10);
    // y: [20-1, 60+1] = [19, 61]
    assert!((f(domain.boundaries_low[1]) - 19.0).abs() < 1e-10);
    assert!((f(domain.boundaries_high[1]) - 61.0).abs() < 1e-10);
    // z: [30-1, 70+1] = [29, 71]
    assert!((f(domain.boundaries_low[2]) - 29.0).abs() < 1e-10);
    assert!((f(domain.boundaries_high[2]) - 71.0).abs() < 1e-10);
    // Derived fields should be updated
    assert!((f(domain.size[0]) - 42.0).abs() < 1e-10);
    assert!((f(domain.volume) - 42.0 * 42.0 * 42.0).abs() < 1e-6);
}

#[test]
fn shrink_wrap_uses_ghost_cutoff_fallback() {
    let mut domain = Domain::new();
    domain.boundaries_low = v([0.0, 0.0, 0.0]);
    domain.boundaries_high = v([10.0, 10.0, 10.0]);
    domain.sub_domain_low = v([0.0, 0.0, 0.0]);
    domain.sub_domain_high = v([10.0, 10.0, 10.0]);
    domain.size = v([10.0, 10.0, 10.0]);
    domain.sub_length = v([10.0, 10.0, 10.0]);
    domain.boundary_type = [BoundaryType::Periodic, BoundaryType::Periodic, BoundaryType::ShrinkWrap];
    domain.shrink_wrap_padding = s(0.0); // no explicit padding
    domain.ghost_cutoff = s(2.0); // should use this as fallback

    let positions = vec![v([5.0, 5.0, 5.0])];
    shrink_wrap_update(&mut domain, &positions, 1, &ar);
    // z bounds: [5.0 - 2.0, 5.0 + 2.0] = [3.0, 7.0]
    assert!((f(domain.boundaries_low[2]) - 3.0).abs() < 1e-10);
    assert!((f(domain.boundaries_high[2]) - 7.0).abs() < 1e-10);
}

#[test]
fn domain_update_derived() {
    let mut domain = Domain::new();
    domain.boundaries_low = v([0.0, 0.0, 0.0]);
    domain.boundaries_high = v([5.0, 10.0, 20.0]);
    domain.sub_domain_low = v([0.0, 0.0, 0.0]);
    domain.sub_domain_high = v([5.0, 10.0, 20.0]);
    domain.update_derived(&ar);

    assert!((f(domain.size[0]) - 5.0).abs() < 1e-10);
    assert!((f(domain.size[1]) - 10.0).abs() < 1e-10);
    assert!((f(domain.size[2]) - 20.0).abs() < 1e-10);
    assert!((f(domain.volume) - 1000.0).abs() < 1e-10);
}

use soil::atom::Atom;
use soil::scalar::{Op, Scalar, Vec3};
use soil::verlet::{final_integration, initial_integration};

fn s(x: f64) -> Scalar {
    Scalar { bits: x.to_bits() }
}

fn f(x: Scalar) -> f64 {
    f64::from_bits(x.bits)
}

fn v(x: [f64; 3]) -> Vec3 {
    [s(x[0]), s(x[1]), s(x[2])]
}

fn ar(op: Op, a: Scalar, b: Scalar, c: Scalar) -> Scalar {
    s(match op {
        Op::Add => f(a) + f(b),
        Op::Sub => f(a) - f(b),
        Op::Mul => f(a) * f(b),
        Op::Div => f(a) / f(b),
        Op::Sqrt => f(a).sqrt(),
        Op::MulAdd => f(a).mul_add(f(b), f(c)),
    })
}


const ATOM_TOL: f64 = 1e-10;

fn make_atom() -> Atom {
    let mut atom = Atom::new();
    atom.dt = s(0.01);
    atom.push_test_atom(0, v([0.0; 3]), s(0.001), s(1.0), &ar);
    atom.vel[0][0] = s(1.0);
    atom.force[0][0] = s(2.0);
    atom.nlocal = 1;
    atom.natoms = 1;
    atom
}

/// One atom on the x axis.
fn one_atom(x: f64, vx: f64, mass: f64, dt: f64) -> Atom {
    let mut atom = Atom::new();
    atom.dt = s(dt);
    atom.push_test_atom(0, v([x, 0.0, 0.0]), s(0.001), s(mass), &ar);
    atom.vel[0] = v([vx, 0.0, 0.0]);
    atom.nlocal = 1;
    atom.natoms = 1;
    atom
}

#[test]
fn initial_integration_updates_position_and_velocity() {
    let mut atom = make_atom();
    initial_integration(&mut atom, &ar);

    // v += 0.5 * 0.01 * 2.0 / 1.0 = 0.01 → v = 1.01
    // x += 1.01 * 0.01 = 0.0101
    assert!((f(atom.vel[0][0]) - 1.01).abs() < ATOM_TOL);
    assert!((f(atom.pos[0][0]) - 0.0101).abs() < ATOM_TOL);
}

// VALIDATION: Velocity Verlet is second-order accurate
// For a harmonic oscillator F = -k*x, the Velocity Verlet error scales
// as O(dt^2). Run at dt and dt/2: the position error ratio should be ~4.
// This verifies the integrator order of convergence.
#[test]
fn velocity_verlet_second_order_convergence() {
    // Harmonic oscillator: F = -k*x, with k=1, m=1
    // Exact solution: x(t) = x0*cos(t) + v0*sin(t)
    // We use x0=1, v0=0 → x(t) = cos(t), v(t) = -sin(t)
    let k = 1.0;
    let x0 = 1.0;
    let v0 = 0.0;
    let t_final = 1.0; // integrate to t=1

    let run_harmonic = |dt: f64| -> (f64, f64) {
        let nsteps = (t_final / dt).round() as usize;
        let mut atom = one_atom(x0, v0, 1.0, dt);
        for _ in 0..nsteps {
            atom.force[0][0] = s(-k * f(atom.pos[0][0]));
            initial_integration(&mut atom, &ar);
            atom.force[0][0] = s(-k * f(atom.pos[0][0]));
            final_integration(&mut atom, &ar);
        }
        (f(atom.pos[0][0]), f(atom.vel[0][0]))
    };

    let dt1 = 0.01;
    let dt2 = 0.005; // dt/2
    let dt3 = 0.0025; // dt/4

    let exact_x = f64::cos(t_final);

    let (x1, _) = run_harmonic(dt1);
    let (x2, _) = run_harmonic(dt2);
    let (x3, _) = run_harmonic(dt3);

    let err1 = (x1 - exact_x).abs();
    let err2 = (x2 - exact_x).abs();
    let err3 = (x3 - exact_x).abs();

    // Second-order: err(dt/2) / err(dt) ≈ 1/4
    let ratio_12 = err1 / err2;
    let ratio_23 = err2 / err3;

    assert!(
        (ratio_12 - 4.0).abs() < 0.5,
        "VV convergence dt→dt/2: error ratio should be ~4, got {:.2} (errs: {:.2e}, {:.2e})",
        ratio_12, err1, err2
    );
    assert!(
        (ratio_23 - 4.0).abs() < 0.5,
        "VV convergence dt/2→dt/4: error ratio should be ~4, got {:.2} (errs: {:.2e}, {:.2e})",
        ratio_23, err2, err3
    );
}

// VALIDATION: Velocity Verlet conserves energy for harmonic oscillator
// The symplectic integrator should conserve energy up to O(dt^2) per
// step, resulting in bounded energy drift over long times.
#[test]
fn velocity_verlet_energy_conservation_harmonic() {
    let k: f64 = 100.0;
    let x0: f64 = 0.1;
    let v0: f64 = 0.0;
    let dt: f64 = 1e-4;
    let nsteps = 10000; // many oscillation periods

    let e_initial: f64 = 0.5 * k * x0 * x0 + 0.5 * v0 * v0;

    let mut atom = one_atom(x0, v0, 1.0, dt);
    for _ in 0..nsteps {
        atom.force[0][0] = s(-k * f(atom.pos[0][0]));
        initial_integration(&mut atom, &ar);
        atom.force[0][0] = s(-k * f(atom.pos[0][0]));
        final_integration(&mut atom, &ar);
    }

    let (x, v) = (f(atom.pos[0][0]), f(atom.vel[0][0]));
    let e_final = 0.5 * k * x * x + 0.5 * v * v;
    let rel_drift = (e_final - e_initial).abs() / e_initial.abs();

    assert!(
        rel_drift < 1e-6,
        "VV energy drift over {} steps: relative = {:.2e} (should be < 1e-6)",
        nsteps, rel_drift
    );
}

// VALIDATION: Free particle (F=0) moves at constant velocity
// This tests that the integrator preserves velocity when no force acts.
#[test]
fn free_particle_constant_velocity() {
    let mut atom = Atom::new();
    atom.dt = s(0.001);
    atom.push_test_atom(0, v([0.0, 0.0, 0.0]), s(0.001), s(1.0), &ar);
    atom.vel[0] = v([1.5, -2.3, 0.7]);
    atom.nlocal = 1;
    atom.natoms = 1;

    for _ in 0..1000 {
        initial_integration(&mut atom, &ar);
        final_integration(&mut atom, &ar);
    }

    let t = 1.0; // 1000 * 0.001
    assert!(
        (f(atom.pos[0][0]) - 1.5 * t).abs() < ATOM_TOL,
        "x position: {}", f(atom.pos[0][0])
    );
    assert!(
        (f(atom.pos[0][1]) - (-2.3 * t)).abs() < ATOM_TOL,
        "y position: {}", f(atom.pos[0][1])
    );
    assert!(
        (f(atom.vel[0][0]) - 1.5).abs() < ATOM_TOL,
        "x velocity preserved: {}", f(atom.vel[0][0])
    );
}

// VALIDATION: Constant force produces parabolic trajectory
// With F = m*g, the position should be x = v0*t + 0.5*g*t^2 (exact for VV).
#[test]
fn constant_force_parabolic_trajectory() {
    // Velocity Verlet is exact for constant force: x = x0 + v0*t + 0.5*a*t^2.
    let dt: f64 = 0.0001;
    let nsteps = 10000;
    let mass: f64 = 2.0;
    let g: f64 = -9.81;
    let a = g; // acceleration = F/m = m*g/m = g

    let mut atom = one_atom(10.0, 5.0, mass, dt);
    atom.force[0][0] = s(mass * g);
    for _ in 0..nsteps {
        initial_integration(&mut atom, &ar);
        final_integration(&mut atom, &ar);
    }
    let (x, v) = (f(atom.pos[0][0]), f(atom.vel[0][0]));

    let t = nsteps as f64 * dt;
    let expected_x = 10.0 + 5.0 * t + 0.5 * a * t * t;
    let expected_v = 5.0 + a * t;

    // VV is exact for constant force — error should be machine precision
    assert!(
        (x - expected_x).abs() < 1e-10,
        "z pos: got {}, expected {}", x, expected_x
    );
    assert!(
        (v - expected_v).abs() < 1e-10,
        "vz: got {}, expected {}", v, expected_v
    );
}

#[test]
fn final_integration_updates_velocity_only() {
    let mut atom = make_atom();
    final_integration(&mut atom, &ar);

    assert!((f(atom.vel[0][0]) - 1.01).abs() < ATOM_TOL);
    // Position should be unchanged
    assert!((f(atom.pos[0][0]) - 0.0).abs() < ATOM_TOL);
}

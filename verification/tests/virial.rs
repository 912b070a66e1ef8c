use soil::scalar::{Op, Scalar, Vec3};
use soil::virial::{zero_virial_stress, VirialStress};

fn s(x: f64) -> Scalar {
    Scalar { bits: x.to_bits() }
}

fn f(x: Scalar) -> f64 {
    f64::from_bits(x.bits)
}

fn v(x: [f64; 3]) -> Vec3 {
    [s(x[0]), s(x[1]), s(x[2])]
}

fn ar(op: Op, a: Scalar, b: Scalar, c: Scalar) -> Scalar {
    s(match op {
        Op::Add => f(a) + f(b),
        Op::Sub => f(a) - f(b),
        Op::Mul => f(a) * f(b),
        Op::Div => f(a) / f(b),
        Op::Sqrt => f(a).sqrt(),
        Op::MulAdd => f(a).mul_add(f(b), f(c)),
    })
}


#[test]
fn virial_add_pair_trace() {
    let mut w = VirialStress::default();
    // dx=1, dy=0, dz=0, fx=-10, fy=0, fz=0 (repulsive along x)
    w.add_pair(s(1.0), s(0.0), s(0.0), s(-10.0), s(0.0), s(0.0), &ar);
    assert!((f(w.xx) - (-10.0)).abs() < 1e-15);
    assert!((f(w.trace(&ar)) - (-10.0)).abs() < 1e-15);
}

#[test]
fn virial_zero() {
    let mut w = VirialStress::default();
    w.add_pair(s(1.0), s(2.0), s(3.0), s(4.0), s(5.0), s(6.0), &ar);
    w.zero();
    assert!((f(w.trace(&ar))).abs() < 1e-15);
}

#[test]
fn interval_of_nothing_is_the_first_step() {
    let mut w = VirialStress::default();
    w.interval = Some(0);
    zero_virial_stress(&mut w, 0);
    assert!(w.active);
    zero_virial_stress(&mut w, 7);
    assert!(!w.active);
}

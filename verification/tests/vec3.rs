use soil::scalar::{Op, Scalar, Vec3};
use soil::vec3::{add_assign, add_scaled, cross, dot, norm, norm_sq, normalize, sub_assign};

fn s(x: f64) -> Scalar {
    Scalar { bits: x.to_bits() }
}

fn f(x: Scalar) -> f64 {
    f64::from_bits(x.bits)
}

fn v(x: [f64; 3]) -> Vec3 {
    [s(x[0]), s(x[1]), s(x[2])]
}

fn ar(op: Op, a: Scalar, b: Scalar, c: Scalar) -> Scalar {
    s(match op {
        Op::Add => f(a) + f(b),
        Op::Sub => f(a) - f(b),
        Op::Mul => f(a) * f(b),
        Op::Div => f(a) / f(b),
        Op::Sqrt => f(a).sqrt(),
        Op::MulAdd => f(a).mul_add(f(b), f(c)),
    })
}


const EPS: f64 = 1e-12;

fn close(a: Vec3, b: [f64; 3]) -> bool {
    (0..3).all(|k| (f(a[k]) - b[k]).abs() < EPS)
}

#[test]
fn cross_is_right_handed() {
    let x = v([1.0, 0.0, 0.0]);
    let y = v([0.0, 1.0, 0.0]);
    assert!(close(cross(x, y, &ar), [0.0, 0.0, 1.0]));
    assert!(close(cross(y, x, &ar), [0.0, 0.0, -1.0]));
}

#[test]
fn cross_is_perpendicular_to_inputs() {
    let a = v([0.3, -1.7, 2.1]);
    let b = v([4.0, 0.5, -2.2]);
    let c = cross(a, b, &ar);
    assert!(f(dot(c, a, &ar)).abs() < EPS);
    assert!(f(dot(c, b, &ar)).abs() < EPS);
}

#[test]
fn dot_and_norm_agree() {
    let a = v([3.0, 4.0, 0.0]);
    assert!((f(norm(a, &ar)) - 5.0).abs() < EPS);
    assert!((f(norm_sq(a, &ar)) - 25.0).abs() < EPS);
}

#[test]
fn add_scaled_matches_manual() {
    let base = v([1.0, 2.0, 3.0]);
    let force = v([10.0, 20.0, 30.0]);
    let factor = s(0.5);
    assert!(close(add_scaled(base, force, factor, &ar), [6.0, 12.0, 18.0]));
}

#[test]
fn normalize_handles_zero() {
    let (u, n) = normalize(v([0.0, 0.0, 0.0]), &ar);
    assert_eq!(f(n), 0.0);
    assert!(close(u, [0.0, 0.0, 0.0]));
}

#[test]
fn normalize_unit_length() {
    let (u, n) = normalize(v([0.0, 3.0, 4.0]), &ar);
    assert!((f(n) - 5.0).abs() < EPS);
    assert!((f(norm(u, &ar)) - 1.0).abs() < EPS);
}

#[test]
fn scatter_helpers_accumulate() {
    let mut force: Vec3 = v([1.0, 1.0, 1.0]);
    add_assign(&mut force, v([2.0, 0.0, -1.0]), &ar);
    sub_assign(&mut force, v([0.5, 0.5, 0.5]), &ar);
    assert!(close(force, [2.5, 0.5, -0.5]));
}

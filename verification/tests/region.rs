use rand::Rng;
use soil::region::{Axis, Region};
use soil::sampling::{Drawn, Sampling};
use soil::scalar::{Op, Scalar, Vec3};

fn s(x: f64) -> Scalar {
    Scalar { bits: x.to_bits() }
}

fn f(x: Scalar) -> f64 {
    f64::from_bits(x.bits)
}

fn v(x: [f64; 3]) -> Vec3 {
    [s(x[0]), s(x[1]), s(x[2])]
}

fn ar(op: Op, a: Scalar, b: Scalar, c: Scalar) -> Scalar {
    s(match op {
        Op::Add => f(a) + f(b),
        Op::Sub => f(a) - f(b),
        Op::Mul => f(a) * f(b),
        Op::Div => f(a) / f(b),
        Op::Sqrt => f(a).sqrt(),
        Op::MulAdd => f(a).mul_add(f(b), f(c)),
    })
}

/// A point inside the region: what the region asks for is drawn.
fn random_point_inside(r: &Region, rng: &mut impl Rng) -> Vec3 {
    let mut draws = Vec::new();
    loop {
        match r.random_point_inside(&draws, 0, &ar) {
            Sampling::Number { lo, hi } => {
                draws.push(Drawn::Number(s(rng.random_range(f(lo)..f(hi)))));
            }
            Sampling::Index { count } => draws.push(Drawn::Index(rng.random_range(0..count))),
            Sampling::Again { keep } => draws.truncate(keep),
            Sampling::Inside { point } => return point,
            Sampling::Unbounded => {
                panic!("Cannot generate random point inside a Plane region (unbounded)")
            }
            Sampling::EmptyUnion => panic!("Cannot generate random point inside empty Union"),
            Sampling::EmptyIntersect => {
                panic!("Cannot generate random point inside empty Intersect")
            }
        }
    }
}

#[test]
fn test_block_contains() {
    let r = Region::Block {
        min: v([0.0, 0.0, 0.0]),
        max: v([1.0, 1.0, 1.0]),
    };
    assert!(r.contains(&v([0.5, 0.5, 0.5]), &ar));
    assert!(r.contains(&v([0.0, 0.0, 0.0]), &ar));
    assert!(r.contains(&v([1.0, 1.0, 1.0]), &ar));
    assert!(!r.contains(&v([1.1, 0.5, 0.5]), &ar));
    assert!(!r.contains(&v([-0.1, 0.5, 0.5]), &ar));
}

#[test]
fn test_sphere_contains() {
    let r = Region::Sphere {
        center: v([0.0, 0.0, 0.0]),
        radius: s(1.0),
    };
    assert!(r.contains(&v([0.0, 0.0, 0.0]), &ar));
    assert!(r.contains(&v([0.5, 0.5, 0.5]), &ar));
    assert!(!r.contains(&v([1.0, 1.0, 0.0]), &ar));
}

#[test]
fn test_cylinder_contains() {
    let r = Region::Cylinder {
        center: [s(0.0), s(0.0)],
        radius: s(1.0),
        axis: Axis::Z,
        lo: s(0.0),
        hi: s(5.0),
    };
    assert!(r.contains(&v([0.0, 0.0, 2.5]), &ar));
    assert!(r.contains(&v([0.5, 0.5, 1.0]), &ar));
    assert!(!r.contains(&v([0.0, 0.0, -1.0]), &ar));
    assert!(!r.contains(&v([2.0, 0.0, 2.5]), &ar));
}

#[test]
fn test_plane_contains() {
    let r = Region::Plane {
        point: v([0.0, 0.0, 0.0]),
        normal: v([0.0, 0.0, 1.0]),
    };
    assert!(r.contains(&v([0.0, 0.0, 1.0]), &ar));
    assert!(r.contains(&v([0.0, 0.0, 0.0]), &ar));
    assert!(!r.contains(&v([0.0, 0.0, -1.0]), &ar));
}

#[test]
fn test_cone_contains() {
    let r = Region::Cone {
        center: [s(0.0), s(0.0)],
        axis: Axis::Z,
        rad_lo: s(2.0),
        rad_hi: s(1.0),
        lo: s(0.0),
        hi: s(10.0),
    };
    // Center of cone at z=0 (radius=2)
    assert!(r.contains(&v([0.0, 0.0, 0.0]), &ar));
    // At z=5, radius should be 1.5
    assert!(r.contains(&v([1.0, 0.0, 5.0]), &ar));
    assert!(!r.contains(&v([1.6, 0.0, 5.0]), &ar));
    // At z=10, radius should be 1.0
    assert!(r.contains(&v([0.5, 0.5, 10.0]), &ar));
    assert!(!r.contains(&v([1.0, 1.0, 10.0]), &ar));
    // Outside axial bounds
    assert!(!r.contains(&v([0.0, 0.0, -0.1]), &ar));
    assert!(!r.contains(&v([0.0, 0.0, 10.1]), &ar));
}

#[test]
fn test_cone_random_point() {
    let r = Region::Cone {
        center: [s(1.0), s(2.0)],
        axis: Axis::Z,
        rad_lo: s(3.0),
        rad_hi: s(1.0),
        lo: s(0.0),
        hi: s(5.0),
    };
    let mut rng = rand::rng();
    for _ in 0..200 {
        let p = random_point_inside(&r, &mut rng);
        assert!(r.contains(&p, &ar), "random point {:?} not in cone", p);
    }
}

#[test]
fn test_block_random_point() {
    let r = Region::Block {
        min: v([1.0, 2.0, 3.0]),
        max: v([4.0, 5.0, 6.0]),
    };
    let mut rng = rand::rng();
    for _ in 0..100 {
        let p = random_point_inside(&r, &mut rng);
        assert!(r.contains(&p, &ar), "random point {:?} not in block", p);
    }
}

#[test]
fn test_sphere_random_point() {
    let r = Region::Sphere {
        center: v([1.0, 2.0, 3.0]),
        radius: s(2.0),
    };
    let mut rng = rand::rng();
    for _ in 0..100 {
        let p = random_point_inside(&r, &mut rng);
        assert!(r.contains(&p, &ar), "random point {:?} not in sphere", p);
    }
}

#[test]
#[should_panic(expected = "Cannot generate random point inside a Plane")]
fn test_plane_random_panics() {
    let r = Region::Plane {
        point: v([0.0, 0.0, 0.0]),
        normal: v([0.0, 0.0, 1.0]),
    };
    let mut rng = rand::rng();
    random_point_inside(&r, &mut rng);
}

#[test]
fn test_cylinder_contains_axis_x() {
    // Axis::X: axial = x, center is in (Y, Z) plane
    let r = Region::Cylinder {
        center: [s(2.0), s(3.0)], // center_y=2, center_z=3
        radius: s(1.0),
        axis: Axis::X,
        lo: s(0.0),
        hi: s(5.0),
    };
    // On axis center: x=2.5, y=2.0, z=3.0
    assert!(r.contains(&v([2.5, 2.0, 3.0]), &ar));
    // Near edge in Y: y=2.9, z=3.0 → r=0.9
    assert!(r.contains(&v([1.0, 2.9, 3.0]), &ar));
    // Outside radius in Y: y=5.0, z=3.0 → r=3.0
    assert!(!r.contains(&v([2.5, 5.0, 3.0]), &ar));
    // Outside axial range: x=-1.0
    assert!(!r.contains(&v([-1.0, 2.0, 3.0]), &ar));
    // Outside axial range: x=6.0
    assert!(!r.contains(&v([6.0, 2.0, 3.0]), &ar));
}

#[test]
fn test_cylinder_contains_axis_y() {
    // Axis::Y: axial = y, center is in (X, Z) plane
    let r = Region::Cylinder {
        center: [s(1.0), s(4.0)], // center_x=1, center_z=4
        radius: s(0.5),
        axis: Axis::Y,
        lo: s(-1.0),
        hi: s(3.0),
    };
    // On axis center: x=1.0, y=0.0, z=4.0
    assert!(r.contains(&v([1.0, 0.0, 4.0]), &ar));
    // Near edge: x=1.4, z=4.0 → r=0.4
    assert!(r.contains(&v([1.4, 2.0, 4.0]), &ar));
    // Outside radius: x=2.0, z=4.0 → r=1.0
    assert!(!r.contains(&v([2.0, 1.0, 4.0]), &ar));
    // Outside axial range: y=-2.0
    assert!(!r.contains(&v([1.0, -2.0, 4.0]), &ar));
}

#[test]
fn test_cylinder_random_point_axis_x() {
    let r = Region::Cylinder {
        center: [s(2.0), s(3.0)],
        radius: s(1.5),
        axis: Axis::X,
        lo: s(-1.0),
        hi: s(4.0),
    };
    let mut rng = rand::rng();
    for _ in 0..200 {
        let p = random_point_inside(&r, &mut rng);
        assert!(r.contains(&p, &ar), "random point {:?} not in X-cylinder", p);
    }
}

#[test]
fn test_cylinder_random_point_axis_y() {
    let r = Region::Cylinder {
        center: [s(1.0), s(4.0)],
        radius: s(2.0),
        axis: Axis::Y,
        lo: s(0.0),
        hi: s(10.0),
    };
    let mut rng = rand::rng();
    for _ in 0..200 {
        let p = random_point_inside(&r, &mut rng);
        assert!(r.contains(&p, &ar), "random point {:?} not in Y-cylinder", p);
    }
}

#[test]
fn test_union_or_logic() {
    let r = Region::Union {
        regions: vec![
            Region::Sphere { center: v([0.0, 0.0, 0.0]), radius: s(1.0) },
            Region::Sphere { center: v([3.0, 0.0, 0.0]), radius: s(1.0) },
        ],
    };
    // In first sphere
    assert!(r.contains(&v([0.0, 0.0, 0.0]), &ar));
    // In second sphere
    assert!(r.contains(&v([3.0, 0.0, 0.0]), &ar));
    // In neither
    assert!(!r.contains(&v([1.5, 0.0, 0.0]), &ar));
}

#[test]
fn test_intersect_and_logic() {
    let r = Region::Intersect {
        regions: vec![
            Region::Sphere { center: v([0.0, 0.0, 0.0]), radius: s(2.0) },
            Region::Sphere { center: v([1.0, 0.0, 0.0]), radius: s(2.0) },
        ],
    };
    // In both spheres
    assert!(r.contains(&v([0.5, 0.0, 0.0]), &ar));
    // In first only
    assert!(!r.contains(&v([-1.5, 0.0, 0.0]), &ar));
    // In second only
    assert!(!r.contains(&v([2.5, 0.0, 0.0]), &ar));
}

#[test]
fn test_union_random_point() {
    let r = Region::Union {
        regions: vec![
            Region::Block { min: v([0.0, 0.0, 0.0]), max: v([1.0, 1.0, 1.0]) },
            Region::Block { min: v([5.0, 5.0, 5.0]), max: v([6.0, 6.0, 6.0]) },
        ],
    };
    let mut rng = rand::rng();
    for _ in 0..100 {
        let p = random_point_inside(&r, &mut rng);
        assert!(r.contains(&p, &ar), "random point {:?} not in union", p);
    }
}

#[test]
fn test_intersect_random_point() {
    let r = Region::Intersect {
        regions: vec![
            Region::Block { min: v([0.0, 0.0, 0.0]), max: v([2.0, 2.0, 2.0]) },
            Region::Block { min: v([1.0, 1.0, 1.0]), max: v([3.0, 3.0, 3.0]) },
        ],
    };
    let mut rng = rand::rng();
    for _ in 0..100 {
        let p = random_point_inside(&r, &mut rng);
        assert!(r.contains(&p, &ar), "random point {:?} not in intersect", p);
        // Should be in the overlap: [1,1,1] to [2,2,2]
        assert!(f(p[0]) >= 1.0 && f(p[0]) <= 2.0);
        assert!(f(p[1]) >= 1.0 && f(p[1]) <= 2.0);
        assert!(f(p[2]) >= 1.0 && f(p[2]) <= 2.0);
    }
}

// VALIDATION: Region edge cases — boundary points, degenerate regions,
// nested union/intersect, and overlapping regions.

#[test]
fn test_block_boundary_points_are_inside() {
    // All faces, edges, and corners of a block should be "inside" (inclusive)
    let r = Region::Block { min: v([0.0, 0.0, 0.0]), max: v([1.0, 1.0, 1.0]) };
    // Faces
    assert!(r.contains(&v([0.5, 0.5, 0.0]), &ar)); // bottom face
    assert!(r.contains(&v([0.5, 0.5, 1.0]), &ar)); // top face
    // Edges
    assert!(r.contains(&v([0.0, 0.5, 0.0]), &ar));
    assert!(r.contains(&v([1.0, 0.5, 1.0]), &ar));
    // Corners
    assert!(r.contains(&v([0.0, 0.0, 0.0]), &ar));
    assert!(r.contains(&v([1.0, 1.0, 1.0]), &ar));
    assert!(r.contains(&v([0.0, 1.0, 0.0]), &ar));
}

#[test]
fn test_sphere_boundary_on_surface() {
    let r = Region::Sphere { center: v([0.0, 0.0, 0.0]), radius: s(1.0) };
    // Points exactly on the surface should be inside (<=)
    assert!(r.contains(&v([1.0, 0.0, 0.0]), &ar));
    assert!(r.contains(&v([0.0, 1.0, 0.0]), &ar));
    assert!(r.contains(&v([0.0, 0.0, 1.0]), &ar));
    // Just outside
    assert!(!r.contains(&v([1.0 + 1e-10, 0.0, 0.0]), &ar));
}

#[test]
fn test_zero_volume_block() {
    // Degenerate block with zero volume (min == max)
    let r = Region::Block { min: v([1.0, 2.0, 3.0]), max: v([1.0, 2.0, 3.0]) };
    // Only the exact point should be inside
    assert!(r.contains(&v([1.0, 2.0, 3.0]), &ar));
    assert!(!r.contains(&v([1.0 + 1e-15, 2.0, 3.0]), &ar));
}

#[test]
fn test_zero_radius_sphere() {
    // Degenerate sphere with zero radius
    let r = Region::Sphere { center: v([0.0, 0.0, 0.0]), radius: s(0.0) };
    assert!(r.contains(&v([0.0, 0.0, 0.0]), &ar));
    assert!(!r.contains(&v([1e-15, 0.0, 0.0]), &ar));
}

#[test]
fn test_nested_union_of_intersections() {
    // Union of two intersections: (A ∩ B) ∪ (C ∩ D)
    let r = Region::Union {
        regions: vec![
            Region::Intersect {
                regions: vec![
                    Region::Block { min: v([0.0, 0.0, 0.0]), max: v([2.0, 2.0, 2.0]) },
                    Region::Sphere { center: v([0.0, 0.0, 0.0]), radius: s(1.5) },
                ],
            },
            Region::Intersect {
                regions: vec![
                    Region::Block { min: v([3.0, 3.0, 3.0]), max: v([5.0, 5.0, 5.0]) },
                    Region::Sphere { center: v([4.0, 4.0, 4.0]), radius: s(2.0) },
                ],
            },
        ],
    };
    // Point in first intersection
    assert!(r.contains(&v([0.5, 0.5, 0.5]), &ar));
    // Point in second intersection
    assert!(r.contains(&v([4.0, 4.0, 4.0]), &ar));
    // Point in neither
    assert!(!r.contains(&v([2.5, 2.5, 2.5]), &ar));
}

#[test]
fn test_overlapping_union_regions() {
    // Two overlapping spheres — point in overlap should be inside
    let r = Region::Union {
        regions: vec![
            Region::Sphere { center: v([0.0, 0.0, 0.0]), radius: s(2.0) },
            Region::Sphere { center: v([1.0, 0.0, 0.0]), radius: s(2.0) },
        ],
    };
    // In overlap region
    assert!(r.contains(&v([0.5, 0.0, 0.0]), &ar));
    // In first only
    assert!(r.contains(&v([-1.5, 0.0, 0.0]), &ar));
    // In second only
    assert!(r.contains(&v([2.5, 0.0, 0.0]), &ar));
}

#[test]
fn test_non_overlapping_intersect_is_empty() {
    // Two non-overlapping blocks — intersect should contain nothing
    let r = Region::Intersect {
        regions: vec![
            Region::Block { min: v([0.0, 0.0, 0.0]), max: v([1.0, 1.0, 1.0]) },
            Region::Block { min: v([2.0, 2.0, 2.0]), max: v([3.0, 3.0, 3.0]) },
        ],
    };
    assert!(!r.contains(&v([0.5, 0.5, 0.5]), &ar));
    assert!(!r.contains(&v([2.5, 2.5, 2.5]), &ar));
    assert!(!r.contains(&v([1.5, 1.5, 1.5]), &ar));
}

#[test]
fn test_cylinder_at_axial_boundaries() {
    let r = Region::Cylinder {
        center: [s(0.0), s(0.0)],
        radius: s(1.0),
        axis: Axis::Z,
        lo: s(0.0),
        hi: s(5.0),
    };
    // Exactly at lo
    assert!(r.contains(&v([0.0, 0.0, 0.0]), &ar));
    // Exactly at hi
    assert!(r.contains(&v([0.0, 0.0, 5.0]), &ar));
    // Just below lo
    assert!(!r.contains(&v([0.0, 0.0, -1e-10]), &ar));
    // Just above hi
    assert!(!r.contains(&v([0.0, 0.0, 5.0 + 1e-10]), &ar));
}

#[test]
fn test_plane_exact_on_surface() {
    let r = Region::Plane {
        point: v([0.0, 0.0, 5.0]),
        normal: v([0.0, 0.0, 1.0]),
    };
    // Point exactly on the plane
    assert!(r.contains(&v([10.0, -5.0, 5.0]), &ar));
    // Point just above (positive side)
    assert!(r.contains(&v([0.0, 0.0, 5.0 + 1e-15]), &ar));
    // Point just below (negative side)
    assert!(!r.contains(&v([0.0, 0.0, 5.0 - 1e-10]), &ar));
}

// ── Surface distance tests ──────────────────────────────────────────────

#[test]
fn test_sphere_surface_outside() {
    let r = Region::Sphere {
        center: v([0.0, 0.0, 0.0]),
        radius: s(1.0),
    };
    let sr = r.closest_point_on_surface(&v([2.0, 0.0, 0.0]), &ar);
    assert!((f(sr.distance) - 1.0).abs() < 1e-10, "dist={}", f(sr.distance));
    assert!((f(sr.point[0]) - 1.0).abs() < 1e-10);
    assert!((f(sr.normal[0]) - 1.0).abs() < 1e-10);
}

#[test]
fn test_sphere_surface_inside() {
    let r = Region::Sphere {
        center: v([0.0, 0.0, 0.0]),
        radius: s(1.0),
    };
    let sr = r.closest_point_on_surface(&v([0.5, 0.0, 0.0]), &ar);
    assert!((f(sr.distance) - (-0.5)).abs() < 1e-10, "dist={}", f(sr.distance));
    assert!((f(sr.point[0]) - 1.0).abs() < 1e-10);
    assert!((f(sr.normal[0]) - 1.0).abs() < 1e-10);
}

#[test]
fn test_block_surface_inside() {
    let r = Region::Block {
        min: v([0.0, 0.0, 0.0]),
        max: v([2.0, 2.0, 2.0]),
    };
    // Point near the +z face
    let sr = r.closest_point_on_surface(&v([1.0, 1.0, 1.8]), &ar);
    assert!(f(sr.distance) < 0.0, "should be inside");
    assert!((f(sr.distance) - (-0.2)).abs() < 1e-10, "dist={}", f(sr.distance));
    assert!((f(sr.normal[2]) - 1.0).abs() < 1e-10, "normal should be +z");
}

#[test]
fn test_block_surface_outside() {
    let r = Region::Block {
        min: v([0.0, 0.0, 0.0]),
        max: v([1.0, 1.0, 1.0]),
    };
    let sr = r.closest_point_on_surface(&v([0.5, 0.5, 1.5]), &ar);
    assert!((f(sr.distance) - 0.5).abs() < 1e-10, "dist={}", f(sr.distance));
    assert!((f(sr.normal[2]) - 1.0).abs() < 1e-10);
}

#[test]
fn test_plane_surface() {
    let r = Region::Plane {
        point: v([0.0, 0.0, 0.0]),
        normal: v([0.0, 0.0, 1.0]),
    };
    let sr = r.closest_point_on_surface(&v([1.0, 2.0, 3.0]), &ar);
    assert!((f(sr.distance) - 3.0).abs() < 1e-10);
    assert!(f(sr.point[2]).abs() < 1e-10);
    assert!((f(sr.normal[2]) - 1.0).abs() < 1e-10);

    let sr2 = r.closest_point_on_surface(&v([1.0, 2.0, -1.0]), &ar);
    assert!((f(sr2.distance) - (-1.0)).abs() < 1e-10);
}

#[test]
fn test_cylinder_surface_inside_radial() {
    let r = Region::Cylinder {
        center: [s(0.0), s(0.0)],
        radius: s(1.0),
        axis: Axis::Z,
        lo: s(0.0),
        hi: s(10.0),
    };
    // Point inside, closer to curved surface than end caps
    let sr = r.closest_point_on_surface(&v([0.8, 0.0, 5.0]), &ar);
    assert!(f(sr.distance) < 0.0, "should be inside");
    assert!((f(sr.distance) - (-0.2)).abs() < 1e-10, "dist={}", f(sr.distance));
    // Normal should point radially outward (+x)
    assert!((f(sr.normal[0]) - 1.0).abs() < 1e-10);
}

#[test]
fn test_cone_surface_inside() {
    let r = Region::Cone {
        center: [s(0.0), s(0.0)],
        axis: Axis::Z,
        rad_lo: s(2.0),
        rad_hi: s(2.0), // cylinder-like cone
        lo: s(0.0),
        hi: s(10.0),
    };
    // Should behave like a cylinder for constant radius
    let sr = r.closest_point_on_surface(&v([1.8, 0.0, 5.0]), &ar);
    assert!(f(sr.distance) < 0.0, "should be inside, got {}", f(sr.distance));
}

#[test]
fn test_union_surface() {
    let r = Region::Union {
        regions: vec![
            Region::Sphere { center: v([0.0, 0.0, 0.0]), radius: s(1.0) },
            Region::Sphere { center: v([5.0, 0.0, 0.0]), radius: s(1.0) },
        ],
    };
    // Closer to first sphere
    let sr = r.closest_point_on_surface(&v([0.5, 0.0, 0.0]), &ar);
    assert!(f(sr.distance) < 0.0, "inside first sphere");
}

#[test]
fn buried_surfaces_do_not_count() {
    let sphere = |x: f64, r: f64| Region::Sphere { center: v([x, 0.0, 0.0]), radius: s(r) };
    let union = Region::Union { regions: vec![sphere(0.0, 10.0), sphere(0.0, 1.0)] };
    let sr = union.closest_point_on_surface(&v([2.0, 0.0, 0.0]), &ar);
    assert_eq!(f(sr.distance), -8.0);
    assert_eq!(sr.point, v([10.0, 0.0, 0.0]));
    assert_eq!(sr.normal, v([1.0, 0.0, 0.0]));
    // Outside the nearer part counts.
    let sr = union.closest_point_on_surface(&v([12.0, 0.0, 0.0]), &ar);
    assert_eq!((f(sr.distance), sr.point), (2.0, v([10.0, 0.0, 0.0])));
    // A point of one part alone is outside the intersection.
    let both = Region::Intersect { regions: vec![sphere(0.0, 2.0), sphere(3.0, 2.0)] };
    let sr = both.closest_point_on_surface(&v([-1.5, 0.0, 0.0]), &ar);
    assert_eq!((f(sr.distance), sr.point), (2.5, v([1.0, 0.0, 0.0])));
    assert!(!both.contains(&v([-1.5, 0.0, 0.0]), &ar));
    let sr = both.closest_point_on_surface(&v([1.25, 0.0, 0.0]), &ar);
    assert_eq!((f(sr.distance), sr.point), (-0.25, v([1.0, 0.0, 0.0])));
    // Outside both, where the farther one's point is not in the nearer one.
    let both = Region::Intersect { regions: vec![sphere(0.0, 1.0), sphere(1.0, 1.0)] };
    let sr = both.closest_point_on_surface(&v([0.0, 3.0, 0.0]), &ar);
    assert_eq!((f(sr.distance), sr.point), (2.0, v([0.0, 1.0, 0.0])));
    // Inside a block cut by a plane the nearest surface counts.
    let cut = Region::Intersect {
        regions: vec![
            Region::Block { min: v([0.0; 3]), max: v([8.0; 3]) },
            Region::Plane { point: v([2.0, 0.0, 0.0]), normal: v([1.0, 0.0, 0.0]) },
        ],
    };
    let sr = cut.closest_point_on_surface(&v([5.0, 4.0, 7.0]), &ar);
    assert_eq!((f(sr.distance), sr.point), (-1.0, v([5.0, 4.0, 8.0])));
    let sr = cut.closest_point_on_surface(&v([2.5, 4.0, 4.0]), &ar);
    assert_eq!((f(sr.distance), sr.point), (0.5, v([2.0, 4.0, 4.0])));
}

#[test]
fn draws_are_asked_for_in_order() {
    let n = |x: f64| Drawn::Number(s(x));
    let unit = Sampling::Number { lo: s(-1.0), hi: s(1.0) };
    let sphere = Region::Sphere { center: v([1.0, 2.0, 3.0]), radius: s(2.0) };
    assert_eq!(sphere.random_point_inside(&vec![], 0, &ar), unit);
    assert_eq!(sphere.random_point_inside(&vec![n(0.5), n(0.0)], 0, &ar), unit);
    assert_eq!(
        sphere.random_point_inside(&vec![n(0.5), n(0.0), n(-0.5)], 0, &ar),
        Sampling::Inside { point: v([2.0, 2.0, 2.0]) }
    );
    assert_eq!(
        sphere.random_point_inside(&vec![n(0.9), n(0.9), n(0.0)], 0, &ar),
        Sampling::Again { keep: 0 }
    );
    let block = Region::Block { min: v([0.0, 1.0, 2.0]), max: v([3.0, 4.0, 5.0]) };
    assert_eq!(
        block.random_point_inside(&vec![n(1.0)], 0, &ar),
        Sampling::Number { lo: s(1.0), hi: s(4.0) }
    );
    // A cylinder asks for the height only of points inside its circle.
    let cylinder = Region::Cylinder {
        center: [s(1.0), s(1.0)],
        radius: s(2.0),
        axis: Axis::Y,
        lo: s(0.0),
        hi: s(9.0),
    };
    assert_eq!(
        cylinder.random_point_inside(&vec![n(0.9), n(0.9)], 0, &ar),
        Sampling::Again { keep: 0 }
    );
    assert_eq!(
        cylinder.random_point_inside(&vec![n(0.5), n(0.25)], 0, &ar),
        Sampling::Number { lo: s(0.0), hi: s(9.0) }
    );
    assert_eq!(
        cylinder.random_point_inside(&vec![n(0.5), n(0.25), n(7.0)], 0, &ar),
        Sampling::Inside { point: v([2.0, 7.0, 1.5]) }
    );
    // A union first draws one of its regions, and keeps it when a point is
    // rejected.
    let union = Region::Union { regions: vec![block, sphere] };
    assert_eq!(union.random_point_inside(&vec![], 0, &ar), Sampling::Index { count: 2 });
    assert_eq!(
        union.random_point_inside(&vec![Drawn::Index(1), n(0.9), n(0.9), n(0.0)], 0, &ar),
        Sampling::Again { keep: 1 }
    );
    // An intersection rejects the points of its first region that lie outside
    // another one.
    let both = Region::Intersect {
        regions: vec![
            Region::Block { min: v([0.0; 3]), max: v([4.0; 3]) },
            Region::Plane { point: v([2.0, 0.0, 0.0]), normal: v([1.0, 0.0, 0.0]) },
        ],
    };
    assert_eq!(
        both.random_point_inside(&vec![n(1.0), n(1.0), n(1.0)], 0, &ar),
        Sampling::Again { keep: 0 }
    );
    assert_eq!(
        both.random_point_inside(&vec![n(3.0), n(1.0), n(1.0)], 0, &ar),
        Sampling::Inside { point: v([3.0, 1.0, 1.0]) }
    );
}

#[test]
fn regions_without_points_are_told() {
    let plane = Region::Plane { point: v([0.0; 3]), normal: v([0.0, 0.0, 1.0]) };
    assert_eq!(plane.random_point_inside(&vec![], 0, &ar), Sampling::Unbounded);
    let none = Region::Union { regions: vec![] };
    assert_eq!(none.random_point_inside(&vec![], 0, &ar), Sampling::EmptyUnion);
    let none = Region::Intersect { regions: vec![] };
    assert_eq!(none.random_point_inside(&vec![], 0, &ar), Sampling::EmptyIntersect);
    let nested = Region::Intersect { regions: vec![plane] };
    assert_eq!(nested.random_point_inside(&vec![], 0, &ar), Sampling::Unbounded);
}

#[test]
fn even_cone_is_a_cylinder() {
    let cylinder = Region::Cylinder {
        center: [s(1.0), s(-1.0)],
        radius: s(2.0),
        axis: Axis::Z,
        lo: s(0.0),
        hi: s(8.0),
    };
    let cone = Region::Cone {
        center: [s(1.0), s(-1.0)],
        axis: Axis::Z,
        rad_lo: s(2.0),
        rad_hi: s(2.0),
        lo: s(0.0),
        hi: s(8.0),
    };
    // Near the side, near an end, beside, above, beyond the rim, and on the axis.
    for p in [
        [2.5, -1.0, 4.0],
        [2.0, -1.0, 0.5],
        [7.0, -1.0, 4.0],
        [2.0, -1.0, 10.0],
        [6.0, -1.0, -4.0],
        [1.0, -1.0, 4.0],
        [1.0, -1.0, 1.0],
        [1.0, -1.0, 11.0],
    ] {
        let a = cylinder.closest_point_on_surface(&v(p), &ar);
        let b = cone.closest_point_on_surface(&v(p), &ar);
        assert!((f(a.distance) - f(b.distance)).abs() < 1e-12);
        for d in 0..3 {
            assert!((f(a.point[d]) - f(b.point[d])).abs() < 1e-12);
            assert!((f(a.normal[d]) - f(b.normal[d])).abs() < 1e-12);
        }
    }
}

#[test]
fn the_center_of_a_sphere_has_a_closest_point() {
    let sphere = Region::Sphere { center: v([1.0, 2.0, 3.0]), radius: s(2.0) };
    let r = sphere.closest_point_on_surface(&v([1.0, 2.0, 3.0]), &ar);
    assert_eq!(f(r.distance), -2.0);
    let to: Vec<f64> = (0..3).map(|d| f(r.point[d]) - [1.0, 2.0, 3.0][d]).collect();
    assert_eq!(to.iter().map(|x| x * x).sum::<f64>(), 4.0);
    for d in 0..3 {
        assert_eq!(to[d], 2.0 * f(r.normal[d]));
    }
    assert!(sphere.contains(&v([1.0, 2.0, 3.0]), &ar));
}

#[test]
fn nested_draws_lie_in_the_region() {
    let n = |x: f64| Drawn::Number(s(x));
    let block = Region::Block { min: v([0.0; 3]), max: v([4.0; 3]) };
    let sphere = Region::Sphere { center: v([4.0, 4.0, 4.0]), radius: s(4.0) };
    let both = Region::Intersect { regions: vec![block, sphere] };
    let far = Region::Cylinder {
        center: [s(10.0), s(10.0)],
        radius: s(1.0),
        axis: Axis::Z,
        lo: s(0.0),
        hi: s(2.0),
    };
    let nested = Region::Union { regions: vec![both, far] };
    let mut found = 0;
    for draws in [
        vec![Drawn::Index(0), n(2.0), n(3.0), n(3.0)],
        vec![Drawn::Index(0), n(0.5), n(0.5), n(0.5)],
        vec![Drawn::Index(1), n(0.5), n(-0.5), n(1.0)],
        vec![Drawn::Index(1), n(0.9), n(0.9), n(1.0)],
    ] {
        if let Sampling::Inside { point } = nested.random_point_inside(&draws, 0, &ar) {
            assert!(nested.contains(&point, &ar));
            found += 1;
        }
    }
    assert_eq!(found, 2);
}

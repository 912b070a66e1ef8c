use soil::comm::{comm_read_input, comm_setup, pos_to_rank, CommConfig, CommTopology, SwapData};
use soil::exchange::classify;
use soil::scalar::{Op, Scalar, Vec3};

fn s(x: f64) -> Scalar {
    Scalar { bits: x.to_bits() }
}

fn f(x: Scalar) -> f64 {
    f64::from_bits(x.bits)
}

fn v(x: [f64; 3]) -> Vec3 {
    [s(x[0]), s(x[1]), s(x[2])]
}

fn ar(op: Op, a: Scalar, b: Scalar, c: Scalar) -> Scalar {
    s(match op {
        Op::Add => f(a) + f(b),
        Op::Sub => f(a) - f(b),
        Op::Mul => f(a) * f(b),
        Op::Div => f(a) / f(b),
        Op::Sqrt => f(a).sqrt(),
        Op::MulAdd => f(a).mul_add(f(b), f(c)),
    })
}


#[test]
fn pos_to_rank_basic() {
    let decomp = [2, 2, 1];
    assert_eq!(pos_to_rank([0, 0, 0], decomp), 0);
    assert_eq!(pos_to_rank([0, 1, 0], decomp), 1);
    assert_eq!(pos_to_rank([1, 0, 0], decomp), 2);
    assert_eq!(pos_to_rank([1, 1, 0], decomp), 3);
}

#[test]
fn pos_to_rank_3d() {
    let decomp = [2, 2, 2];
    assert_eq!(pos_to_rank([0, 0, 0], decomp), 0);
    assert_eq!(pos_to_rank([0, 0, 1], decomp), 1);
    assert_eq!(pos_to_rank([0, 1, 0], decomp), 2);
    assert_eq!(pos_to_rank([1, 0, 0], decomp), 4);
    assert_eq!(pos_to_rank([1, 1, 1], decomp), 7);
}

#[test]
fn exchange_classification_periodic_wrap_4procs() {
    // Box [0,16), 4 ranks in this periodic dim → subdomain width 4.
    let box_size = 16.0;
    // Rank 0: [0,4). An atom that left at x<0 is PBC-wrapped to ≈15.9.
    // It must be routed LO (to the far-high-edge rank), not HI.
    assert_eq!(classify(s(15.9), s(0.0), s(4.0), s(box_size), true, &ar), -1, "wrapped low→ lo");
    // A genuine forward migrant just past sub_high stays HI.
    assert_eq!(classify(s(4.1), s(0.0), s(4.0), s(box_size), true, &ar), 1, "forward → hi");
    // Interior atom stays local.
    assert_eq!(classify(s(2.0), s(0.0), s(4.0), s(box_size), true, &ar), 0, "interior → local");

    // Rank 3 (high edge): [12,16). An atom that left at x≥16 is wrapped to ≈0.1
    // and must be routed HI (to rank 0), not LO.
    assert_eq!(classify(s(0.1), s(12.0), s(16.0), s(box_size), true, &ar), 1, "wrapped high → hi");
    // Backward migrant just below sub_low stays LO.
    assert_eq!(classify(s(11.9), s(12.0), s(16.0), s(box_size), true, &ar), -1, "backward → lo");
}

#[test]
fn exchange_classification_nonperiodic() {
    // Non-periodic dim: plain comparison, no wrap.
    let box_size = 16.0;
    assert_eq!(classify(s(4.1), s(0.0), s(4.0), s(box_size), false, &ar), 1);
    assert_eq!(classify(s(-0.1), s(0.0), s(4.0), s(box_size), false, &ar), -1);
    assert_eq!(classify(s(2.0), s(0.0), s(4.0), s(box_size), false, &ar), 0);
}

#[test]
fn swap_data_records_correct_info() {
    let swap = SwapData {
        send_indices: vec![0, 3, 7],
        recv_start: 100,
        recv_count: 5,
        to_proc: 1,
        from_proc: 2,
        periodic_offset: v([10.0, 0.0, 0.0]),
    };
    assert_eq!(swap.send_indices.len(), 3);
    assert_eq!(swap.recv_start, 100);
    assert_eq!(swap.recv_count, 5);
    assert_eq!(swap.to_proc, 1);
    assert_eq!(swap.from_proc, 2);
}

/// The process that process `p` of `n` around a periodic axis hands an atom at `x` to.
fn owner_after(x: f64, p: i32, n: i32, width: f64) -> i32 {
    let low = p as f64 * width;
    let size = n as f64 * width;
    let side = classify(s(x), s(low), s(low + width), s(size), true, &ar);
    (p + side + n) % n
}

#[test]
fn atoms_next_to_a_part_are_handed_to_its_owner() {
    for n in [2, 4, 5, 8] {
        for p in 0..n {
            for away in -1..=1 {
                let q = (p + away + n) % n;
                for inside in [0.0, 0.25, 0.5, 0.75] {
                    let x = 2.0 * (q as f64 + inside);
                    assert_eq!(owner_after(x, p, n, 2.0), q, "{} of {} to {}", p, n, q);
                }
            }
        }
    }
}

#[test]
fn of_three_parts_the_nearer_side_decides() {
    for p in 0..3 {
        let up = (p + 1) % 3;
        assert_eq!(owner_after(2.0 * (up as f64 + 0.25), p, 3, 2.0), up);
        // Past the middle of the part above, the part below is nearer.
        assert_eq!(owner_after(2.0 * (up as f64 + 0.75), p, 3, 2.0), (p + 2) % 3);
        let down = (p + 2) % 3;
        for inside in [0.0, 0.25, 0.5, 0.75] {
            assert_eq!(owner_after(2.0 * (down as f64 + inside), p, 3, 2.0), down);
        }
    }
}

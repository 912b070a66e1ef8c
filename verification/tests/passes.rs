use soil::atom::{zero_all_forces, Atom};
use soil::atom_data::{AtomData, AtomDataRegistry, Field};
use soil::columns::ColumnStore;
use soil::comm::{comm_setup, CommTopology};
use soil::domain::{decompose_domain, Domain, DomainConfig};
use soil::passes::{forward_round, forward_round_finish, reverse_round, reverse_round_finish};
use soil::refresh::{aggregate, forward_rounds, reverse_rounds, Message};
use soil::scalar::{Op, Scalar, Vec3};
use soil::serial::{borders_alone, forward_alone, reverse_alone};

fn s(x: f64) -> Scalar {
    Scalar { bits: x.to_bits() }
}

fn f(x: Scalar) -> f64 {
    f64::from_bits(x.bits)
}

fn v(x: [f64; 3]) -> Vec3 {
    [s(x[0]), s(x[1]), s(x[2])]
}

fn ar(op: Op, a: Scalar, b: Scalar, c: Scalar) -> Scalar {
    s(match op {
        Op::Add => f(a) + f(b),
        Op::Sub => f(a) - f(b),
        Op::Mul => f(a) * f(b),
        Op::Div => f(a) / f(b),
        Op::Sqrt => f(a).sqrt(),
        Op::MulAdd => f(a).mul_add(f(b), f(c)),
    })
}

/// An atom near a corner of a periodic box, with all its images.
fn corner() -> (Atom, AtomDataRegistry<ColumnStore>, CommTopology, Domain) {
    let config = DomainConfig {
        x_high: s(10.0),
        y_high: s(10.0),
        z_high: s(10.0),
        ..Default::default()
    };
    let mut domain = decompose_domain(&config, [1, 1, 1], [0, 0, 0], &ar);
    domain.ghost_cutoff = s(1.0);
    let mut atoms = Atom::new();
    atoms.push_test_atom(3, v([0.5, 0.5, 0.5]), s(0.5), s(1.0), &ar);
    atoms.nlocal = 1;
    atoms.natoms = 1;
    let mut store = ColumnStore::new(&vec![
        Field { width: 1, forward: true, reverse: false, zero: false },
        Field { width: 2, forward: false, reverse: true, zero: true },
    ]);
    store.unpack(&[s(7.0), s(7.0), s(-7.0)]);
    let mut registry = AtomDataRegistry::new();
    registry.register(1, store);
    let mut topo = CommTopology::new();
    comm_setup(&mut topo, [1, 1, 1], [0, 0, 0], domain.periodic_flags());
    let mut buf = Vec::new();
    assert!(borders_alone(
        &mut atoms,
        &mut registry,
        &mut topo,
        &domain,
        [1, 1, 1],
        &mut buf,
        0,
        &ar
    ));
    (atoms, registry, topo, domain)
}

#[test]
fn lone_process_builds_its_images() {
    let (atoms, registry, topo, _) = corner();
    assert_eq!((atoms.nlocal, atoms.nghost, atoms.len()), (1, 7, 8));
    assert_eq!(topo.swap_data.len(), 6);
    let mut places: Vec<[i64; 3]> =
        atoms.pos.iter().map(|p| [f(p[0]) as i64, f(p[1]) as i64, f(p[2]) as i64]).collect();
    places.sort();
    let mut corners = Vec::new();
    for x in [0, 10] {
        for y in [0, 10] {
            for z in [0, 10] {
                corners.push([x, y, z]);
            }
        }
    }
    assert_eq!(places, corners);
    assert_eq!(registry.expect(1).columns[0].values[7], vec![s(7.0)]);
}

#[test]
fn fresh_images_are_up_to_date() {
    let (mut atoms, mut registry, topo, _) = corner();
    let before = atoms.pos.clone();
    let extra = registry.forward_comm_size();
    forward_alone(&topo.swap_data, &mut atoms, &mut registry, 0, extra, &ar);
    assert_eq!(atoms.pos, before);
}

#[test]
fn lone_process_refreshes_its_images() {
    let (mut atoms, mut registry, topo, _) = corner();
    let before = atoms.pos.clone();
    atoms.pos[0] = v([0.25, 0.5, 0.75]);
    atoms.vel[0] = v([1.0, 2.0, 3.0]);
    registry.expect_mut(1).columns[0].values[0] = vec![s(9.0)];
    let extra = registry.forward_comm_size();
    forward_alone(&topo.swap_data, &mut atoms, &mut registry, 0, extra, &ar);
    for i in 0..8 {
        let moved = [
            f(before[i][0]) - 0.25,
            f(before[i][1]),
            f(before[i][2]) + 0.25,
        ];
        assert_eq!(atoms.pos[i], v(moved));
        assert_eq!(atoms.vel[i], v([1.0, 2.0, 3.0]));
        assert_eq!(registry.expect(1).columns[0].values[i], vec![s(9.0)]);
    }
}

#[test]
fn lone_process_gathers_the_forces() {
    let (mut atoms, mut registry, topo, _) = corner();
    zero_all_forces(&mut atoms, &mut registry);
    for i in 0..8 {
        atoms.force[i] = v([1.0, 0.0, -2.0]);
        registry.expect_mut(1).columns[1].values[i] = vec![s(0.5), s(0.0)];
    }
    let per_atom = 3 + registry.reverse_comm_size();
    reverse_alone(&topo.swap_data, &mut atoms, &mut registry, 0, per_atom, &ar);
    assert_eq!(atoms.force[0], v([8.0, 0.0, -16.0]));
    assert_eq!(registry.expect(1).columns[1].values[0], vec![s(4.0), s(0.0)]);
}

#[test]
fn a_round_with_one_neighbor_is_one_message() {
    let (mut atoms, mut registry, topo, _) = corner();
    // Seen from process 5, process 0 is the neighbour on both sides.
    let rounds = forward_rounds(&topo.swap_data, 5);
    assert_eq!(rounds.len(), 3);
    assert!(rounds.iter().all(|r| r.aggregated));
    let extra = registry.forward_comm_size();
    atoms.vel[0] = v([1.0, 2.0, 3.0]);
    for round in rounds {
        let out = forward_round(&topo.swap_data, round, &mut atoms, &mut registry, 5, extra, &ar);
        assert_eq!(out.len(), 1);
        assert_eq!((out[0].dest, out[0].source), (0, 0));
        let sent: usize =
            (round.start..round.end).map(|k| topo.swap_data[k].send_indices.len()).sum();
        let got: usize = (round.start..round.end).map(|k| topo.swap_data[k].recv_count).sum();
        assert_eq!((out[0].send.len(), out[0].recv_len), (7 * sent, 7 * got));
        // The neighbour answers with the same words.
        let replies = vec![out[0].send.clone()];
        forward_round_finish(&topo.swap_data, round, &replies, &mut atoms, &mut registry, 5, extra);
    }
    assert!(atoms.vel.iter().all(|x| *x == v([1.0, 2.0, 3.0])));
    let per_atom = 3 + registry.reverse_comm_size();
    for i in 0..8 {
        atoms.force[i] = v([1.0, 0.0, -2.0]);
    }
    for round in reverse_rounds(&topo.swap_data, 5) {
        let out =
            reverse_round(&topo.swap_data, round, &mut atoms, &mut registry, 5, per_atom, &ar);
        assert_eq!(out.len(), 1);
        let replies = vec![out[0].send.clone()];
        reverse_round_finish(
            &topo.swap_data,
            round,
            &replies,
            &mut atoms,
            &mut registry,
            5,
            per_atom,
            &ar,
        );
    }
    assert_eq!(atoms.force[0], v([8.0, 0.0, -16.0]));
}

#[test]
fn a_round_with_itself_sends_nothing() {
    let (mut atoms, mut registry, topo, _) = corner();
    let extra = registry.forward_comm_size();
    let per_atom = 3 + registry.reverse_comm_size();
    for round in forward_rounds(&topo.swap_data, 0) {
        assert!(!round.aggregated);
        let out = forward_round(&topo.swap_data, round, &mut atoms, &mut registry, 0, extra, &ar);
        assert!(out.is_empty());
        forward_round_finish(&topo.swap_data, round, &vec![], &mut atoms, &mut registry, 0, extra);
    }
    for round in reverse_rounds(&topo.swap_data, 0) {
        let out =
            reverse_round(&topo.swap_data, round, &mut atoms, &mut registry, 0, per_atom, &ar);
        assert!(out.is_empty());
    }
}

#[test]
fn messages_are_aggregated_in_order() {
    let message = |words: &[f64], recv_len: usize| Message {
        dest: 2,
        source: 3,
        send: words.iter().map(|&x| s(x)).collect(),
        recv_len,
    };
    let both = aggregate(message(&[1.0, 2.0], 4), message(&[3.0], 5));
    assert_eq!((both.dest, both.source, both.recv_len), (2, 3, 9));
    assert_eq!(both.send, vec![s(1.0), s(2.0), s(3.0)]);
}

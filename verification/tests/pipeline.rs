use soil::atom::{remove_ghost_atoms, zero_all_forces, Atom};
use soil::atom_data::{AtomData, AtomDataRegistry, Field};
use soil::border_steps::{
    border_receive, border_step, finish_borders, start_borders, BorderStep,
};
use soil::borders::compute_maxneed;
use soil::columns::ColumnStore;
use soil::comm::{comm_read_input, comm_setup, pos_to_rank, round_aggregatable, CommConfig, CommTopology};
use soil::domain::{
    boundary_type_char, decompose_domain, domain_read_input, pbc, wrap_periodic, BoundaryType,
    Domain, DomainConfig, DomainError,
};
use soil::exchange::{
    announce, announced, count_lost, exchange_scan, exchange_transfers, transfer, Transfer,
};
use soil::ghosts::{atoms_readable, unpack_exchanged};
use soil::neighbor::{
    apply_rebuild_decision, bin_grid_fits, bin_neighbor_list, decide_rebuild, finish_sort,
    neighbor_report, neighbor_setup, try_neighbor_setup,
    save_build_positions, sort_atoms_by_bin, Neighbor, NeighborConfig,
};
use soil::neighbor_list::stencil_in_grid;
use soil::refresh::{
    forward_finish_swap, forward_prepare_swap, forward_rounds, reverse_prepare_swap, reverse_rounds,
};
use soil::scalar::{Op, Scalar, Vec3};
use soil::text::Style;
use soil::CommState;

fn s(x: f64) -> Scalar {
    Scalar { bits: x.to_bits() }
}

fn f(x: Scalar) -> f64 {
    f64::from_bits(x.bits)
}

fn v(x: [f64; 3]) -> Vec3 {
    [s(x[0]), s(x[1]), s(x[2])]
}

fn ar(op: Op, a: Scalar, b: Scalar, c: Scalar) -> Scalar {
    s(match op {
        Op::Add => f(a) + f(b),
        Op::Sub => f(a) - f(b),
        Op::Mul => f(a) * f(b),
        Op::Div => f(a) / f(b),
        Op::Sqrt => f(a).sqrt(),
        Op::MulAdd => f(a).mul_add(f(b), f(c)),
    })
}

/// One column that travels both ways and is cleared every step.
fn heat(values: &[f64]) -> ColumnStore {
    let mut store = ColumnStore::new(&vec![
        Field { width: 1, forward: true, reverse: false, zero: false },
        Field { width: 2, forward: false, reverse: true, zero: true },
    ]);
    for &x in values {
        store.unpack(&[s(x), s(x), s(-x)]);
    }
    store
}

fn periodic_box(size: f64) -> Domain {
    let config = DomainConfig {
        x_high: s(size),
        y_high: s(size),
        z_high: s(size),
        ..Default::default()
    };
    decompose_domain(&config, [1, 1, 1], [0, 0, 0], &ar)
}

/// The borders of one process that is its own neighbour everywhere.
fn borders_alone(atoms: &mut Atom, registry: &mut AtomDataRegistry<ColumnStore>, topo: &mut CommTopology, domain: &Domain) {
    let mut pass = start_borders(atoms, registry, topo, domain, [1, 1, 1], 0, &ar).unwrap();
    let mut buf = Vec::new();
    while !pass.is_done() {
        let step = border_step(atoms, registry, topo, domain, &mut pass, &mut buf, 0, &ar);
        assert!(matches!(step, BorderStep::Done));
    }
    finish_borders(atoms, registry, topo, &pass, 0);
}

fn corner_atom() -> (Atom, AtomDataRegistry<ColumnStore>, CommTopology, Domain) {
    let mut domain = periodic_box(10.0);
    domain.ghost_cutoff = s(1.0);
    let mut atoms = Atom::new();
    atoms.push_test_atom(3, v([0.5, 0.5, 0.5]), s(0.5), s(1.0), &ar);
    atoms.nlocal = 1;
    atoms.natoms = 1;
    let mut registry = AtomDataRegistry::new();
    registry.register(1, heat(&[7.0]));
    let mut topo = CommTopology::new();
    comm_setup(&mut topo, [1, 1, 1], [0, 0, 0], domain.periodic_flags());
    (atoms, registry, topo, domain)
}

#[test]
fn corner_atom_has_seven_images() {
    let (mut atoms, mut registry, mut topo, domain) = corner_atom();
    borders_alone(&mut atoms, &mut registry, &mut topo, &domain);
    assert_eq!((atoms.nlocal, atoms.nghost, atoms.len()), (1, 7, 8));
    assert_eq!(topo.swap_data.len(), 6);
    for i in 1..8 {
        assert_eq!((atoms.tag[i], atoms.is_ghost[i]), (3, true));
        for d in 0..3 {
            assert!(f(atoms.pos[i][d]) == 0.5 || f(atoms.pos[i][d]) == 10.5);
        }
    }
    // The extension data of the images is that of the atom.
    let store = registry.expect(1);
    assert!(store.columns[0].values.iter().all(|x| x == &vec![s(7.0)]));
    // Running again starts from the local atoms.
    borders_alone(&mut atoms, &mut registry, &mut topo, &domain);
    assert_eq!(atoms.nghost, 7);
    remove_ghost_atoms(&mut atoms, &mut registry);
    assert_eq!((atoms.len(), atoms.nghost), (1, 0));
}

#[test]
fn borders_are_exchanged_with_neighbors() {
    // The left half of a box that is split along x.
    let config = DomainConfig { x_high: s(8.0), y_high: s(8.0), z_high: s(8.0), ..Default::default() };
    let mut domain = decompose_domain(&config, [2, 1, 1], [0, 0, 0], &ar);
    domain.boundary_type = [BoundaryType::Periodic, BoundaryType::Fixed, BoundaryType::Fixed];
    domain.ghost_cutoff = s(1.0);
    let mut atoms = Atom::new();
    atoms.push_test_atom(1, v([3.5, 4.0, 4.0]), s(0.5), s(1.0), &ar);
    atoms.push_test_atom(2, v([2.0, 4.0, 4.0]), s(0.5), s(1.0), &ar);
    atoms.nlocal = 2;
    let mut registry = AtomDataRegistry::new();
    registry.register(1, heat(&[1.0, 2.0]));
    let mut topo = CommTopology::new();
    comm_setup(&mut topo, [2, 1, 1], [0, 0, 0], domain.periodic_flags());
    let mut pass = start_borders(&mut atoms, &mut registry, &mut topo, &domain, [2, 1, 1], 0, &ar).unwrap();
    assert_eq!(topo.maxneed, [1, 1, 1]);
    let mut buf = Vec::new();
    let mut sent = Vec::new();
    while !pass.is_done() {
        match border_step(&mut atoms, &mut registry, &mut topo, &domain, &mut pass, &mut buf, 0, &ar) {
            BorderStep::Done => panic!("no process is its own neighbour here"),
            BorderStep::Exchange { transfer, swap } => {
                sent.push(swap.send_indices.clone());
                // The neighbour sends back what it was sent.
                let (count, payload) = match transfer {
                    Transfer::Both { to: 1, from: 1 } => (swap.send_indices.len(), buf.clone()),
                    Transfer::Nothing => (0, vec![]),
                    _ => panic!("unexpected transfer"),
                };
                border_receive(
                    &mut atoms, &mut registry, &mut topo, &mut pass, swap, &payload, count, 0, &ar,
                );
            }
        }
    }
    finish_borders(&atoms, &registry, &mut topo, &pass, 0);
    // Only the atom near the upper face is sent, to the upper neighbour.
    assert_eq!(sent[0], Vec::<usize>::new());
    assert_eq!(sent[1], vec![0]);
    assert_eq!((atoms.nlocal, atoms.nghost), (2, 1));
    assert_eq!((atoms.tag[2], atoms.is_ghost[2]), (1, true));
    assert_eq!(topo.swap_data.len(), 6);
    assert_eq!((topo.swap_data[1].recv_start, topo.swap_data[1].recv_count), (2, 1));
    assert_eq!(compute_maxneed([0, 0, 0], [4, 1, 1], v([0.4, 1.0, 1.0]), s(1.0), &ar), [3, 1, 1]);
}

#[test]
fn images_follow_and_return_forces() {
    let (mut atoms, mut registry, mut topo, domain) = corner_atom();
    borders_alone(&mut atoms, &mut registry, &mut topo, &domain);
    atoms.pos[0] = v([0.25, 0.5, 0.75]);
    atoms.vel[0] = v([1.0, 2.0, 3.0]);
    registry.expect_mut(1).columns[0].values[0] = vec![s(9.0)];
    let extra = registry.forward_comm_size();
    for round in forward_rounds(&topo.swap_data, 0) {
        assert!(!round.aggregated);
        for k in round.start..round.end {
            let sent = forward_prepare_swap(&topo.swap_data[k], &mut atoms, &mut registry, 0, extra, &ar);
            assert!(sent.is_none());
        }
    }
    for i in 1..8 {
        for (d, x) in [0.25, 0.5, 0.75].iter().enumerate() {
            let shift = f(atoms.pos[i][d]) - x;
            assert!(shift == 0.0 || shift == 10.0);
        }
        assert_eq!(atoms.vel[i], v([1.0, 2.0, 3.0]));
        assert_eq!(registry.expect(1).columns[0].values[i], vec![s(9.0)]);
    }
    zero_all_forces(&mut atoms, &mut registry);
    assert_eq!(registry.expect(1).columns[1].values[4], vec![s(0.0), s(0.0)]);
    for i in 0..8 {
        atoms.force[i] = v([1.0, 0.0, -2.0]);
        registry.expect_mut(1).columns[1].values[i] = vec![s(0.5), s(0.0)];
    }
    let per_atom = 3 + registry.reverse_comm_size();
    for round in reverse_rounds(&topo.swap_data, 0) {
        for k in (round.start..round.end).rev() {
            let sent = reverse_prepare_swap(&topo.swap_data[k], &mut atoms, &mut registry, 0, per_atom, &ar);
            assert!(sent.is_none());
        }
    }
    assert_eq!(atoms.force[0], v([8.0, 0.0, -16.0]));
    assert_eq!(registry.expect(1).columns[1].values[0], vec![s(4.0), s(0.0)]);
}

#[test]
fn migrants_arrive_with_their_data() {
    let config = DomainConfig { x_high: s(16.0), y_high: s(8.0), z_high: s(8.0), ..Default::default() };
    let left = decompose_domain(&config, [4, 1, 1], [0, 0, 0], &ar);
    let mut atoms = Atom::new();
    for (tag, x) in [(1, 1.0), (2, 4.5), (3, 2.0), (4, 15.9)] {
        atoms.push_test_atom(tag, v([x, 1.0, 1.0]), s(0.5), s(2.0), &ar);
    }
    atoms.nlocal = 4;
    let mut registry = AtomDataRegistry::new();
    registry.register(1, heat(&[10.0, 20.0, 30.0, 40.0]));
    assert_eq!(count_lost(&atoms, &left, [4, 1, 1]), 2);
    let out = exchange_scan(&mut atoms, &mut registry, &left, 0, &ar);
    // The atom at 4.5 leaves upwards, the one at 15.9 through the periodic face.
    assert_eq!((out.lo_count, out.hi_count), (1, 1));
    let mut kept = atoms.tag.clone();
    kept.sort();
    assert_eq!(kept, vec![1, 3]);
    assert_eq!(registry.expect(1).columns[0].values.len(), 2);

    let meta = announce(out.hi_count, out.hi.len());
    let (count, len) = announced(meta);
    assert_eq!((count, len), (1, out.hi.len()));
    let mut there = Atom::new();
    let mut other = AtomDataRegistry::new();
    other.register(1, heat(&[]));
    unpack_exchanged(&mut there, &mut other, &out.hi[..len], count, &ar);
    assert_eq!(there.tag, vec![2]);
    assert_eq!(there.pos[0], v([4.5, 1.0, 1.0]));
    assert_eq!((there.mass[0], there.inv_mass[0]), (s(2.0), s(0.5)));
    assert_eq!(other.expect(1).columns[1].values[0], vec![s(20.0), s(-20.0)]);
}

#[test]
fn transfers_pair_up() {
    assert!(matches!(transfer(1, 2), Transfer::Both { to: 1, from: 2 }));
    assert!(matches!(transfer(1, -1), Transfer::Send { to: 1 }));
    assert!(matches!(transfer(-1, 2), Transfer::Receive { from: 2 }));
    assert!(matches!(transfer(-1, -1), Transfer::Nothing));
    let (lo, hi) = exchange_transfers(1, 0, 0);
    assert!(matches!((lo, hi), (Transfer::Nothing, Transfer::Nothing)));
    let (lo, hi) = exchange_transfers(3, 2, 1);
    assert!(matches!(lo, Transfer::Both { to: 2, from: 1 }));
    assert!(matches!(hi, Transfer::Both { to: 1, from: 2 }));
}

#[test]
fn processes_know_their_place() {
    let config = CommConfig { processors_x: 2, processors_y: 3, processors_z: 2 };
    for rank in 0..12 {
        let grid = comm_read_input(&config, rank, 12).unwrap();
        assert_eq!(pos_to_rank(grid.position, grid.decomp), rank);
    }
    assert!(comm_read_input(&config, 0, 8).is_none());
    let mut topo = CommTopology::new();
    comm_setup(&mut topo, [2, 1, 1], [0, 0, 0], [false, true, true]);
    assert_eq!(topo.swap_directions[0][0], -1);
    assert_eq!(topo.swap_directions[1][0], 1);
    assert_eq!(topo.swap_directions[0][1], 0);
}

#[test]
fn borders_of_two_processes_are_one_message() {
    let mut domain = periodic_box(10.0);
    domain.ghost_cutoff = s(1.0);
    let (mut atoms, mut registry, mut topo, _) = corner_atom();
    borders_alone(&mut atoms, &mut registry, &mut topo, &domain);
    let lo = &topo.swap_data[0];
    let hi = &topo.swap_data[1];
    assert!(!round_aggregatable(lo, hi, 0));
    assert!(round_aggregatable(lo, hi, 5));
    // Towards another process a message is prepared instead.
    let extra = registry.forward_comm_size();
    let message = forward_prepare_swap(&topo.swap_data[0], &mut atoms, &mut registry, 5, extra, &ar).unwrap();
    assert_eq!((message.dest, message.source), (0, 0));
    assert_eq!(message.send.len(), topo.swap_data[0].send_indices.len() * 7);
    let before = atoms.pos.clone();
    forward_finish_swap(&topo.swap_data[0], &message.send, &mut atoms, &mut registry, extra);
    assert_eq!(atoms.pos, before);
}

#[test]
fn positions_wrap_and_count_images() {
    assert_eq!(wrap_periodic(s(10.5), s(0.0), s(10.0), &ar), (s(0.5), 1));
    assert_eq!(wrap_periodic(s(-0.5), s(0.0), s(10.0), &ar), (s(9.5), -1));
    assert_eq!(wrap_periodic(s(3.0), s(0.0), s(10.0), &ar), (s(3.0), 0));
    let mut domain = periodic_box(10.0);
    domain.boundary_type[2] = BoundaryType::Fixed;
    let mut atoms = Atom::new();
    atoms.push_test_atom(1, v([10.5, 5.0, 5.0]), s(0.5), s(1.0), &ar);
    atoms.push_test_atom(2, v([5.0, 5.0, 11.0]), s(0.5), s(1.0), &ar);
    atoms.nlocal = 2;
    atoms.natoms = 2;
    let mut registry = AtomDataRegistry::new();
    registry.register(1, heat(&[1.0, 2.0]));
    let mut state = CommState::CommunicateOnly;
    pbc(&mut atoms, &domain, &mut registry, &mut state, &ar);
    // The first atom is wrapped, the second has left through the fixed face.
    assert_eq!((atoms.nlocal, atoms.tag.clone()), (1, vec![1]));
    assert_eq!(atoms.pos[0], v([0.5, 5.0, 5.0]));
    assert_eq!(atoms.image[0], [1, 0, 0]);
    assert_eq!(state, CommState::FullRebuild);
    assert_eq!(registry.expect(1).columns[0].values, vec![vec![s(1.0)]]);
}

#[test]
fn shrink_wrap_needs_one_process() {
    let config = DomainConfig { boundary_z: BoundaryType::ShrinkWrap, ..Default::default() };
    assert!(matches!(
        domain_read_input(&config, 2, [2, 1, 1], [0, 0, 0], &ar),
        Err(DomainError::ShrinkWrapWithManyProcesses)
    ));
    assert!(domain_read_input(&config, 1, [1, 1, 1], [0, 0, 0], &ar).is_ok());
    assert_eq!(boundary_type_char(BoundaryType::Periodic), 'p');
    assert_eq!(boundary_type_char(BoundaryType::Fixed), 'f');
    assert_eq!(boundary_type_char(BoundaryType::ShrinkWrap), 's');
}

fn lattice(n: usize) -> Atom {
    let mut atoms = Atom::new();
    for i in 0..n {
        // Scattered over the box in an order that is not that of the bins.
        let k = (i * 7) % n;
        let (x, y, z) = (k % 3, (k / 3) % 3, k / 9);
        let p = [0.4 + x as f64 * 0.9, 0.4 + y as f64 * 0.9, 0.4 + z as f64 * 0.9];
        atoms.push_test_atom(i as u32, v(p), s(0.5), s(1.0), &ar);
    }
    atoms.nlocal = n as u32;
    atoms.natoms = n as u64;
    atoms
}

#[test]
fn half_and_full_lists_agree() {
    let atoms = lattice(27);
    let mut counts = Vec::new();
    for newton in [true, false] {
        let mut domain = periodic_box(3.0);
        let mut neighbor = Neighbor::new();
        neighbor.newton = newton;
        neighbor_setup(&mut neighbor, &mut domain, 1, s(0.5), s(0.5), &ar);
        let mut state = CommState::FullRebuild;
        bin_neighbor_list(&atoms, &mut neighbor, &mut state, &ar);
        let mut pairs = neighbor.pairs(27).collect();
        pairs.sort();
        counts.push(pairs.len());
        if newton {
            // Each pair once, in one order only.
            for &(i, j) in &pairs {
                assert!(!pairs.contains(&(j, i)));
            }
        } else {
            for &(i, j) in &pairs {
                assert!(pairs.contains(&(j, i)));
            }
        }
    }
    // Every atom of a 3x3x3 block touches its neighbours along the axes.
    assert_eq!(counts, vec![54, 108]);
}

#[test]
fn sorting_keeps_the_atoms() {
    let mut atoms = lattice(27);
    let mut domain = periodic_box(3.0);
    let mut neighbor = Neighbor::new();
    neighbor.sort_every = 1;
    neighbor_setup(&mut neighbor, &mut domain, 1, s(0.5), s(0.5), &ar);
    let mut registry = AtomDataRegistry::new();
    let marks: Vec<f64> = atoms.tag.iter().map(|&t| t as f64).collect();
    registry.register(1, heat(&marks));
    let mut state = CommState::FullRebuild;
    let report = sort_atoms_by_bin(&mut atoms, &mut neighbor, 1, &mut registry, &mut domain, &mut state, &ar);
    assert_eq!(report, Some(true));
    let mut tags = atoms.tag.clone();
    // The extension data moves with its atom.
    for i in 0..27 {
        assert_eq!(registry.expect(1).columns[0].values[i], vec![s(tags[i] as f64)]);
    }
    tags.sort();
    assert_eq!(tags, (0..27).collect::<Vec<u32>>());
}

#[test]
fn lists_are_rebuilt_after_a_move() {
    let mut atoms = lattice(27);
    let mut domain = periodic_box(3.0);
    let mut neighbor = Neighbor::new();
    neighbor.skin_fraction = s(1.25);
    neighbor_setup(&mut neighbor, &mut domain, 1, s(0.5), s(0.5), &ar);
    save_build_positions(&atoms, &mut neighbor, &ar);
    let state = CommState::CommunicateOnly;
    assert!(!decide_rebuild(&atoms, &neighbor, &domain, state, &ar));
    atoms.pos[3][0] = s(f(atoms.pos[3][0]) + 0.3);
    assert!(decide_rebuild(&atoms, &neighbor, &domain, state, &ar));
    let mut next = CommState::CommunicateOnly;
    apply_rebuild_decision(&mut neighbor, &mut next, false);
    assert_eq!((next, neighbor.steps_since_build), (CommState::CommunicateOnly, 1));
    apply_rebuild_decision(&mut neighbor, &mut next, true);
    assert_eq!(next, CommState::FullRebuild);
}

#[test]
fn neighbor_choices_are_reported() {
    let show = |_style: Style, x: Scalar| format!("{}", f(x));
    let mut config = NeighborConfig::default();
    config.every = 0;
    config.newton = true;
    assert_eq!(
        neighbor_report(&config, &show),
        "Neighbor: skin_fraction=1 bin_size=1 rebuild=displacement newton=on"
    );
    config.every = 20;
    config.check = true;
    assert!(neighbor_report(&config, &show).contains("rebuild=every 20 + check"));
    config.check = false;
    config.newton = false;
    assert!(neighbor_report(&config, &show).ends_with("rebuild=every 20 newton=off"));
}

#[test]
fn a_sort_asks_for_a_rebuild() {
    let atoms = lattice(8);
    let mut neighbor = Neighbor::new();
    save_build_positions(&atoms, &mut neighbor, &ar);
    assert_eq!(neighbor.last_build_pos.len(), 8);
    let mut state = CommState::CommunicateOnly;
    finish_sort(&mut neighbor, &mut state, false);
    assert_eq!((state, neighbor.last_build_pos.len()), (CommState::CommunicateOnly, 8));
    finish_sort(&mut neighbor, &mut state, true);
    assert_eq!((state, neighbor.last_build_pos.len()), (CommState::FullRebuild, 0));
}

#[test]
fn grids_that_do_not_fit_are_told() {
    let mut domain = periodic_box(3.0);
    let mut neighbor = Neighbor::new();
    neighbor.skin_fraction = s(1.25);
    neighbor_setup(&mut neighbor, &mut domain, 1, s(0.5), s(0.5), &ar);
    assert!(bin_grid_fits(&neighbor, &domain, 1, &ar));
    // A box of too many cells is told, and only the cutoffs are set.
    let mut huge = periodic_box(1.0e9);
    let mut other = Neighbor::new();
    other.bin_min_size = s(1.0);
    let (report, fits) = try_neighbor_setup(&mut other, &mut huge, 1, s(0.5), s(0.5), &ar);
    assert!(!fits);
    assert_eq!((f(report.pair_cutoff), other.bin_total_cells), (1.0, 0));
    let mut again = Neighbor::new();
    again.skin_fraction = s(1.25);
    let mut small = periodic_box(3.0);
    let (_, fits) = try_neighbor_setup(&mut again, &mut small, 1, s(0.5), s(0.5), &ar);
    assert!(fits);
    assert_eq!((again.bin_total_cells, again.pbc_flags), (neighbor.bin_total_cells, [true; 3]));
    // Cells 0 to 3 with steps of one on either side.
    assert!(stencil_in_grid(&vec![1, 2], &vec![-1, 0, 1], true, 2, 4));
    assert!(!stencil_in_grid(&vec![0, 2], &vec![-1, 0, 1], true, 2, 4));
    assert!(!stencil_in_grid(&vec![1, 3], &vec![-1, 0, 1], true, 2, 4));
    // Only local atoms look around, and without them nothing can go wrong.
    assert!(stencil_in_grid(&vec![1, 3], &vec![1], true, 1, 4));
    assert!(stencil_in_grid(&vec![], &vec![-9], true, 0, 4));
}

#[test]
fn short_messages_are_told() {
    let mut registry = AtomDataRegistry::new();
    registry.register(1, heat(&[]));
    let words = vec![s(0.0); 40];
    assert!(atoms_readable(&registry, &words, 2));
    assert!(!atoms_readable(&registry, &words, 3));
    assert!(atoms_readable(&registry, &[], 0));
}

#[test]
fn exchange_keeps_every_atom() {
    // Two processes share a periodic box along x.
    let config = DomainConfig { x_high: s(8.0), y_high: s(8.0), z_high: s(8.0), ..Default::default() };
    let domains: Vec<Domain> =
        [0, 1].iter().map(|&k| decompose_domain(&config, [2, 1, 1], [k, 0, 0], &ar)).collect();
    let places = [vec![1.0, 4.5, 7.5], vec![5.0, 3.5, 0.5, 6.0]];
    let mut processes = Vec::new();
    let mut tag = 0;
    for list in &places {
        let mut atoms = Atom::new();
        let mut values = Vec::new();
        for &x in list {
            tag += 1;
            atoms.push_test_atom(tag, v([x, 1.0, 1.0]), s(0.5), s(1.0), &ar);
            values.push(tag as f64);
        }
        atoms.nlocal = list.len() as u32;
        let mut registry = AtomDataRegistry::new();
        registry.register(1, heat(&values));
        processes.push((atoms, registry));
    }
    let mut sent = Vec::new();
    for (k, (atoms, registry)) in processes.iter_mut().enumerate() {
        sent.push(exchange_scan(atoms, registry, &domains[k], 0, &ar));
    }
    // Each is the neighbour of the other on both sides.
    for (k, (atoms, registry)) in processes.iter_mut().enumerate() {
        let other = &sent[1 - k];
        assert!(atoms_readable(registry, &other.lo, other.lo_count));
        unpack_exchanged(atoms, registry, &other.lo, other.lo_count, &ar);
        unpack_exchanged(atoms, registry, &other.hi, other.hi_count, &ar);
    }
    let mut found = Vec::new();
    for (k, (atoms, registry)) in processes.iter().enumerate() {
        for i in 0..atoms.len() {
            let x = f(atoms.pos[i][0]);
            assert!(f(domains[k].sub_domain_low[0]) <= x && x < f(domains[k].sub_domain_high[0]));
            let value = &registry.expect(1).columns[0].values[i];
            assert_eq!(value, &vec![s(atoms.tag[i] as f64)]);
            found.push((atoms.tag[i], x));
        }
    }
    found.sort_by_key(|x| x.0);
    let all: Vec<(u32, f64)> =
        places.concat().iter().enumerate().map(|(k, &x)| (k as u32 + 1, x)).collect();
    assert_eq!(found, all);
}

use soil::atom::Atom;
use soil::domain::Domain;
use soil::neighbor::{bin_neighbor_list, neighbor_setup, Neighbor};
use soil::scalar::{Op, Scalar, Vec3};
use soil::CommState;

fn s(x: f64) -> Scalar {
    Scalar { bits: x.to_bits() }
}

fn f(x: Scalar) -> f64 {
    f64::from_bits(x.bits)
}

fn v(x: [f64; 3]) -> Vec3 {
    [s(x[0]), s(x[1]), s(x[2])]
}

fn ar(op: Op, a: Scalar, b: Scalar, c: Scalar) -> Scalar {
    s(match op {
        Op::Add => f(a) + f(b),
        Op::Sub => f(a) - f(b),
        Op::Mul => f(a) * f(b),
        Op::Div => f(a) / f(b),
        Op::Sqrt => f(a).sqrt(),
        Op::MulAdd => f(a).mul_add(f(b), f(c)),
    })
}

fn push_atom(atom: &mut Atom, tag: u32, pos: [f64; 3], radius: f64) {
    atom.push_test_atom(tag, v(pos), s(radius), s(1.0), &ar);
}

/// Sets the cutoffs and the bins up for one process and lists the neighbours.
fn set_up_and_list(atoms: &Atom, neighbor: &mut Neighbor, domain: &mut Domain) {
    let max_skin = atoms.cutoff_radius.iter().fold(s(0.0), |m, &r| m.max(r));
    let min_skin = atoms.cutoff_radius.iter().fold(s(f64::MAX), |m, &r| m.min(r));
    neighbor_setup(neighbor, domain, 1, max_skin, min_skin, &ar);
    let mut state = CommState::FullRebuild;
    bin_neighbor_list(atoms, neighbor, &mut state, &ar);
}

#[test]
fn bin_neighbor_list_finds_close_pair() {
    let mut atom = Atom::new();
    push_atom(&mut atom, 0, [0.5, 0.5, 0.5], 0.5);
    push_atom(&mut atom, 1, [1.0, 0.5, 0.5], 0.5);
    atom.nlocal = 2;
    atom.natoms = 2;

    let mut domain = Domain::new();
    domain.sub_domain_low = v([0.0, 0.0, 0.0]);
    domain.sub_domain_high = v([2.0, 2.0, 2.0]);
    domain.sub_length = v([2.0, 2.0, 2.0]);

    let mut neighbor = Neighbor::new();
    neighbor.skin_fraction = s(1.0);
    neighbor.bin_min_size = s(1.0);

    set_up_and_list(&atom, &mut neighbor, &mut domain);

    let n = &neighbor;
    assert!(
        n.neighbor_indices.len() >= 1,
        "bin neighbor list should find the close pair"
    );
    // Check CSR: atom 0's neighbors should contain 1
    let start = n.neighbor_offsets[0] as usize;
    let end = n.neighbor_offsets[1] as usize;
    let has_pair = n.neighbor_indices[start..end].contains(&1u32);
    assert!(has_pair, "pair (0,1) should be in CSR neighbors");
}

#[test]
fn pair_iter_matches_manual() {
    let mut neighbor = Neighbor::new();
    // 3 local atoms: atom 0 -> [1, 2], atom 1 -> [2], atom 2 -> []
    neighbor.neighbor_offsets = vec![0, 2, 3, 3];
    neighbor.neighbor_indices = vec![1, 2, 2];

    let pairs: Vec<(usize, usize)> = neighbor.pairs(3).collect();
    assert_eq!(pairs, vec![(0, 1), (0, 2), (1, 2)]);
}

#[test]
fn pair_iter_empty() {
    let mut neighbor = Neighbor::new();
    neighbor.neighbor_offsets = vec![0, 0, 0];
    neighbor.neighbor_indices = vec![];

    let pairs: Vec<(usize, usize)> = neighbor.pairs(2).collect();
    assert!(pairs.is_empty());

    // Also test zero local atoms
    let pairs2: Vec<(usize, usize)> = neighbor.pairs(0).collect();
    assert!(pairs2.is_empty());
}

// ── Reference vs bin-based neighbor list comparison ──────────────────

/// Reference O(N²) all-pairs neighbor finder that doesn't use ghost atoms
/// or any accelerated algorithm. Pure distance-based cutoff check.
fn reference_all_pairs(
    positions: &[[f64; 3]],
    cutoff_radii: &[f64],
    skin_fraction: f64,
    nlocal: usize,
) -> Vec<(usize, usize)> {
    let mut pairs = Vec::new();
    for i in 0..nlocal {
        for j in (i + 1)..positions.len() {
            let dx = positions[j][0] - positions[i][0];
            let dy = positions[j][1] - positions[i][1];
            let dz = positions[j][2] - positions[i][2];
            let dist = (dx * dx + dy * dy + dz * dz).sqrt();
            let cutoff = (cutoff_radii[i] + cutoff_radii[j]) * skin_fraction;
            if dist < cutoff {
                pairs.push((i, j));
            }
        }
    }
    pairs.sort();
    pairs
}

#[test]
fn bin_neighbor_list_matches_reference() {
    // Create a system and verify that bin-based neighbor list finds
    // exactly the same pairs as the reference all-pairs calculation.
    let n = 30;
    let skin_fraction = 1.0;
    let radius = 0.3;

    let mut positions = Vec::new();
    for i in 0..n {
        let x = (i as f64 * 0.31).sin() * 1.5 + 2.0;
        let y = (i as f64 * 0.67).cos() * 1.5 + 2.0;
        let z = (i as f64 * 0.97).sin() * 1.5 + 2.0;
        positions.push([x, y, z]);
    }

    // Reference all-pairs
    let cutoffs: Vec<f64> = vec![radius; n];
    let ref_pairs = reference_all_pairs(&positions, &cutoffs, skin_fraction, n);

    // Bin-based neighbor list
    let mut atom_bin = Atom::new();
    for i in 0..n {
        push_atom(&mut atom_bin, i as u32, positions[i], radius);
    }
    atom_bin.nlocal = n as u32;
    atom_bin.natoms = n as u64;

    let mut domain = Domain::new();
    domain.sub_domain_low = v([0.0, 0.0, 0.0]);
    domain.sub_domain_high = v([4.0, 4.0, 4.0]);
    domain.sub_length = v([4.0, 4.0, 4.0]);

    let mut neighbor_bin = Neighbor::new();
    neighbor_bin.skin_fraction = s(skin_fraction);
    neighbor_bin.bin_min_size = s(0.5);

    set_up_and_list(&atom_bin, &mut neighbor_bin, &mut domain);

    let neigh_bin = &neighbor_bin;
    // Extract pairs from CSR format
    let nlocal = n;
    let mut bin_pairs = Vec::new();
    for i in 0..nlocal {
        if i + 1 >= neigh_bin.neighbor_offsets.len() {
            break;
        }
        let start = neigh_bin.neighbor_offsets[i] as usize;
        let end = neigh_bin.neighbor_offsets[i + 1] as usize;
        for k in start..end {
            let j = neigh_bin.neighbor_indices[k] as usize;
            let pair = if i < j { (i, j) } else { (j, i) };
            bin_pairs.push(pair);
        }
    }
    bin_pairs.sort();
    bin_pairs.dedup();

    assert_eq!(bin_pairs, ref_pairs);
    for pair in &ref_pairs {
        assert!(
            bin_pairs.contains(pair),
            "Bin neighbor list missed pair {:?} found by reference",
            pair
        );
    }
}

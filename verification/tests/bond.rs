use soil::atom::Atom;
use soil::atom_data::{AtomData, AtomDataRegistry};
use soil::bond::{BondEntry, BondStore};
use soil::scalar::{Op, Scalar, Vec3};

fn s(x: f64) -> Scalar {
    Scalar { bits: x.to_bits() }
}

fn f(x: Scalar) -> f64 {
    f64::from_bits(x.bits)
}

fn v(x: [f64; 3]) -> Vec3 {
    [s(x[0]), s(x[1]), s(x[2])]
}

fn ar(op: Op, a: Scalar, b: Scalar, c: Scalar) -> Scalar {
    s(match op {
        Op::Add => f(a) + f(b),
        Op::Sub => f(a) - f(b),
        Op::Mul => f(a) * f(b),
        Op::Div => f(a) / f(b),
        Op::Sqrt => f(a).sqrt(),
        Op::MulAdd => f(a).mul_add(f(b), f(c)),
    })
}

/// The key of the bonds in a registry.
const BONDS: u64 = 1;


fn make_store_with_bonds() -> BondStore {
    // 4 atoms: tags 10, 20, 30, 40
    // Bonds: 10-20 (type 1, r0=1.0), 20-30 (type 1, r0=1.5)
    let mut store = BondStore::new();
    // atom 0 (tag 10): bonded to 20
    store.bonds.push(vec![BondEntry { partner_tag: 20, bond_type: 1, r0: s(1.0) }]);
    // atom 1 (tag 20): bonded to 10 and 30
    store.bonds.push(vec![
        BondEntry { partner_tag: 10, bond_type: 1, r0: s(1.0) },
        BondEntry { partner_tag: 30, bond_type: 1, r0: s(1.5) },
    ]);
    // atom 2 (tag 30): bonded to 20
    store.bonds.push(vec![BondEntry { partner_tag: 20, bond_type: 1, r0: s(1.5) }]);
    // atom 3 (tag 40): no bonds
    store.bonds.push(Vec::new());
    store
}

#[test]
fn pack_unpack_round_trip() {
    let store = make_store_with_bonds();
    // Pack atom 1 (two bonds)
    let mut buf = Vec::new();
    store.pack(1, &mut buf);
    assert_eq!(buf.len(), 1 + 3 * 2); // count + 2 × (tag, type, r0)

    let mut store2 = BondStore::new();
    let consumed = store2.unpack(&buf);
    assert_eq!(consumed, buf.len());
    assert_eq!(store2.bonds.len(), 1);
    assert_eq!(store2.bonds[0].len(), 2);
    assert_eq!(store2.bonds[0][0].partner_tag, 10);
    assert_eq!(store2.bonds[0][0].bond_type, 1);
    assert!((f(store2.bonds[0][0].r0) - 1.0).abs() < 1e-15);
    assert_eq!(store2.bonds[0][1].partner_tag, 30);
    assert!((f(store2.bonds[0][1].r0) - 1.5).abs() < 1e-15);
}

#[test]
fn pack_unpack_empty() {
    let store = make_store_with_bonds();
    let mut buf = Vec::new();
    store.pack(3, &mut buf); // atom 3 has no bonds
    assert_eq!(buf.len(), 1);
    assert_eq!(f(buf[0]) as usize, 0);

    let mut store2 = BondStore::new();
    let consumed = store2.unpack(&buf);
    assert_eq!(consumed, 1);
    assert_eq!(store2.bonds[0].len(), 0);
}

#[test]
fn pack_out_of_range() {
    let store = BondStore::new();
    let mut buf = Vec::new();
    store.pack(99, &mut buf);
    assert_eq!(buf.len(), 1);
    assert_eq!(f(buf[0]) as usize, 0);
}

#[test]
fn has_bond_basic() {
    let store = make_store_with_bonds();
    assert!(store.has_bond(0, 20));
    assert!(!store.has_bond(0, 30));
    assert!(store.has_bond(1, 10));
    assert!(store.has_bond(1, 30));
    assert!(!store.has_bond(3, 10));
}

#[test]
fn exclusion_1_2_direct_bond() {
    let store = make_store_with_bonds();
    let tags: Vec<u32> = vec![10, 20, 30, 40];
    // 10-20 are directly bonded
    assert!(store.are_excluded(0, 1, &tags));
    assert!(store.are_excluded(1, 0, &tags));
}

#[test]
fn exclusion_1_3_shared_neighbor() {
    let store = make_store_with_bonds();
    let tags: Vec<u32> = vec![10, 20, 30, 40];
    // 10 and 30 are NOT directly bonded, but share neighbor 20
    assert!(store.are_excluded(0, 2, &tags));
    assert!(store.are_excluded(2, 0, &tags));
}

#[test]
fn no_exclusion_for_unrelated_atoms() {
    let store = make_store_with_bonds();
    let tags: Vec<u32> = vec![10, 20, 30, 40];
    // 10 and 40 have no bond relationship
    assert!(!store.are_excluded(0, 3, &tags));
    assert!(!store.are_excluded(3, 0, &tags));
    // 30 and 40 have no bond relationship
    assert!(!store.are_excluded(2, 3, &tags));
}

#[test]
fn swap_remove_works() {
    let mut store = make_store_with_bonds();
    assert_eq!(store.bonds.len(), 4);
    // Remove atom 1 (tag 20) — last element (atom 3) takes its place
    store.swap_remove(1);
    assert_eq!(store.bonds.len(), 3);
    // Index 1 should now be atom 3's data (empty bonds)
    assert_eq!(store.bonds[1].len(), 0);
    // Index 0 should still be atom 0's data
    assert_eq!(store.bonds[0][0].partner_tag, 20);
}

#[test]
fn truncate_grows_and_shrinks() {
    let mut store = BondStore::new();
    store.truncate(3);
    assert_eq!(store.bonds.len(), 3);
    // Add some data to first entry
    store.bonds[0].push(BondEntry { partner_tag: 5, bond_type: 0, r0: s(2.0) });
    store.truncate(1);
    assert_eq!(store.bonds.len(), 1);
    assert_eq!(store.bonds[0][0].partner_tag, 5);
}

/// Simulates one dimension of the MPI exchange: pack atom + its bonds on
/// "rank A", swap-remove, ship the buffer, unpack onto "rank B". Verifies
/// that bond records travel with the migrating atom, the sender keeps its
/// remaining bonds in a consistent index layout, and no f64s are left over
/// in the buffer.
#[test]
fn migration_preserves_bonds_across_ranks() {
    // ── Rank A: two atoms bonded to each other ────────────────────────
    let mut atoms_a = Atom::new();
    atoms_a.push_test_atom(10, v([0.0, 0.0, 0.0]), s(0.5), s(1.0), &ar);
    atoms_a.push_test_atom(20, v([1.0, 0.0, 0.0]), s(0.5), s(1.0), &ar);
    atoms_a.nlocal = 2;

    let mut registry_a = AtomDataRegistry::new();
    let mut store_a = BondStore::new();
    store_a.bonds.push(vec![BondEntry { partner_tag: 20, bond_type: 1, r0: s(1.0) }]);
    store_a.bonds.push(vec![BondEntry { partner_tag: 10, bond_type: 1, r0: s(1.0) }]);
    registry_a.register(BONDS, store_a);

    // ── Migrate atom 0 (tag 10) to rank B ─────────────────────────────
    let migrate_idx = 0;
    let mut buf = Vec::new();
    atoms_a.pack_exchange(migrate_idx, &mut buf, &ar);
    registry_a.pack_all(migrate_idx, &mut buf);
    atoms_a.swap_remove(migrate_idx);
    registry_a.swap_remove_all(migrate_idx);
    atoms_a.nlocal -= 1;

    // Rank A now has only tag 20 (swapped into index 0), and its bond to
    // tag 10 must still be present and at the same index.
    assert_eq!(atoms_a.tag[0], 20);
    let store_a_after = registry_a.expect(BONDS);
    assert_eq!(store_a_after.bonds.len(), 1);
    assert_eq!(store_a_after.bonds[0][0].partner_tag, 10);

    // ── Rank B: starts empty, receives the migrating atom ─────────────
    let mut atoms_b = Atom::new();
    atoms_b.nlocal = 0;
    let mut registry_b = AtomDataRegistry::new();
    registry_b.register(BONDS, BondStore::new());

    let mut pos = 0;
    pos += atoms_b.unpack_atom(&buf[pos..], false, &ar);
    pos += registry_b.unpack_all(&buf[pos..]);
    atoms_b.nlocal = 1;

    assert_eq!(pos, buf.len(), "must consume the entire exchange buffer");
    assert_eq!(atoms_b.tag[0], 10);

    let store_b = registry_b.expect(BONDS);
    assert_eq!(store_b.bonds.len(), 1, "rank B has one atom's bond list");
    assert_eq!(store_b.bonds[0].len(), 1, "migrated atom kept its bond");
    assert_eq!(store_b.bonds[0][0].partner_tag, 20);
    assert_eq!(store_b.bonds[0][0].bond_type, 1);
    assert!((f(store_b.bonds[0][0].r0) - 1.0).abs() < 1e-15);
}

/// Same migration, but with multiple bonds on one atom plus a bond-free
/// passenger atom — exercises the per-atom bond-count prefix.
#[test]
fn migration_preserves_multi_bond_and_empty() {
    let mut atoms = Atom::new();
    atoms.push_test_atom(10, v([0.0, 0.0, 0.0]), s(0.5), s(1.0), &ar);
    atoms.push_test_atom(20, v([1.0, 0.0, 0.0]), s(0.5), s(1.0), &ar);
    atoms.push_test_atom(30, v([2.0, 0.0, 0.0]), s(0.5), s(1.0), &ar);
    atoms.push_test_atom(40, v([3.0, 0.0, 0.0]), s(0.5), s(1.0), &ar);
    atoms.nlocal = 4;

    let mut registry = AtomDataRegistry::new();
    let mut store = BondStore::new();
    // Atom 0 (tag 10): bonded to 20 and 30
    store.bonds.push(vec![
        BondEntry { partner_tag: 20, bond_type: 1, r0: s(1.0) },
        BondEntry { partner_tag: 30, bond_type: 2, r0: s(2.0) },
    ]);
    store.bonds.push(vec![BondEntry { partner_tag: 10, bond_type: 1, r0: s(1.0) }]);
    store.bonds.push(vec![BondEntry { partner_tag: 10, bond_type: 2, r0: s(2.0) }]);
    store.bonds.push(Vec::new()); // tag 40 is unbonded
    registry.register(BONDS, store);

    // Migrate atoms 0 and 3 together (one with bonds, one without).
    let mut buf = Vec::new();
    for idx in [3usize, 0usize] {
        // Iterate high→low so swap_remove is safe
        atoms.pack_exchange(idx, &mut buf, &ar);
        registry.pack_all(idx, &mut buf);
        atoms.swap_remove(idx);
        registry.swap_remove_all(idx);
        atoms.nlocal -= 1;
    }

    // Decode on a fresh "rank B".
    let mut atoms_b = Atom::new();
    let mut registry_b = AtomDataRegistry::new();
    registry_b.register(BONDS, BondStore::new());
    let mut pos = 0;
    for _ in 0..2 {
        pos += atoms_b.unpack_atom(&buf[pos..], false, &ar);
        pos += registry_b.unpack_all(&buf[pos..]);
        atoms_b.nlocal += 1;
    }
    assert_eq!(pos, buf.len());
    assert_eq!(atoms_b.nlocal, 2);

    // The receiving rank's bond lists must match the order of unpack.
    let store_b = registry_b.expect(BONDS);
    assert_eq!(store_b.bonds.len(), 2);
    // First unpack was atom tag 40 (no bonds).
    assert_eq!(atoms_b.tag[0], 40);
    assert!(store_b.bonds[0].is_empty());
    // Second unpack was atom tag 10 (two bonds).
    assert_eq!(atoms_b.tag[1], 10);
    assert_eq!(store_b.bonds[1].len(), 2);
    let partners: Vec<u32> = store_b.bonds[1].iter().map(|b| b.partner_tag).collect();
    assert!(partners.contains(&20));
    assert!(partners.contains(&30));
}

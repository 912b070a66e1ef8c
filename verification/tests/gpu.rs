use soil::atom::Atom;
use soil::boundary::{Boundary, Plane};
use soil::cell_grid::{cell_buffers, Grid};
use soil::coherence::DualBuffer;
use soil::device::{
    adapter_index, buffer_bytes, ensure_sized, flat3, group3, read_words, slice_offset, take_over,
    word_bytes, workgroups, Sizing,
};
use soil::resident::{Kernel, ResidentLoop};
use soil::scalar::{Op, Scalar, Vec3};
use soil::slots::{NeighborSlots, Side, MAX_CONTACTS, PAYLOAD, SENTINEL};

fn s(x: f64) -> Scalar {
    Scalar { bits: x.to_bits() }
}

fn f(x: Scalar) -> f64 {
    f64::from_bits(x.bits)
}

fn v(x: [f64; 3]) -> Vec3 {
    [s(x[0]), s(x[1]), s(x[2])]
}

fn ar(op: Op, a: Scalar, b: Scalar, c: Scalar) -> Scalar {
    s(match op {
        Op::Add => f(a) + f(b),
        Op::Sub => f(a) - f(b),
        Op::Mul => f(a) * f(b),
        Op::Div => f(a) / f(b),
        Op::Sqrt => f(a).sqrt(),
        Op::MulAdd => f(a).mul_add(f(b), f(c)),
    })
}

/// Arithmetic in single precision.
fn ar32(op: Op, a: Scalar, b: Scalar, c: Scalar) -> Scalar {
    let (x, y, z) = (f(a) as f32, f(b) as f32, f(c) as f32);
    s(match op {
        Op::Add => x + y,
        Op::Sub => x - y,
        Op::Mul => x * y,
        Op::Div => x / y,
        Op::Sqrt => x.sqrt(),
        Op::MulAdd => x.mul_add(y, z),
    } as f64)
}

fn v32(x: [f32; 3]) -> Vec3 {
    v([x[0] as f64, x[1] as f64, x[2] as f64])
}

#[test]
fn plane_signed_distance_and_overlap() {
    // Floor at z=0, normal +z.
    let floor = Plane::new(v32([0.0, 0.0, 0.0]), v32([0.0, 0.0, 1.0]), &ar32);
    assert!((f(floor.signed_distance(v32([1.0, 2.0, 0.5]), &ar32)) - 0.5).abs() < 1e-6);
    assert!((f(floor.signed_distance(v32([0.0, 0.0, -0.3]), &ar32)) + 0.3).abs() < 1e-6);
    // sphere r=0.5 centred at z=0.2 penetrates the floor by 0.3.
    assert!((f(floor.overlap(v32([0.0, 0.0, 0.2]), s(0.5), &ar32)) - 0.3).abs() < 1e-6);
    // resting just touching: overlap ~0.
    assert!(f(floor.overlap(v32([0.0, 0.0, 0.5]), s(0.5), &ar32)).abs() < 1e-6);

    // Normalization: a non-unit normal still gives true distance.
    let tilted = Plane::new(v32([0.0, 0.0, 0.0]), v32([0.0, 0.0, 2.0]), &ar32);
    assert!((f(tilted.signed_distance(v32([0.0, 0.0, 1.0]), &ar32)) - 1.0).abs() < 1e-6);

    // Device packing round-trips the components.
    let mut b = Boundary::new();
    b.push(floor);
    let g = b.to_gpu();
    assert_eq!(g.len(), 1);
    assert_eq!(f(g[0].normal[2]), 1.0);
}

#[test]
fn dualbuffer_lazy_sync_roundtrip() {
    let mut db = DualBuffer::new(vec![1.0f32, 2.0, 3.0, 4.0]);
    let mut device: Vec<f32> = vec![0.0; 4];

    // Starts host-fresh: ensure_device uploads once, then is coherent.
    assert!(!db.is_coherent(), "fresh buffer has pending host upload");
    if db.ensure_device() {
        device = db.host.clone();
    }
    assert!(db.is_coherent());
    // ensure_device again is a no-op (nothing modified).
    assert!(!db.ensure_device());
    assert!(db.is_coherent());

    // Simulate a device-side write: clobber the host mirror, mark device
    // modified, then ensure_host must restore the uploaded values from device.
    for x in db.host.iter_mut() {
        *x = -99.0;
    }
    db.mark_device_modified();
    assert!(!db.is_coherent());
    assert!(db.needs_download());
    assert!(db.ensure_host(device.clone()));
    assert_eq!(db.host, vec![1.0, 2.0, 3.0, 4.0], "download restores device data");
    assert!(db.is_coherent());

    // A host write marks device stale; ensure_device re-uploads.
    db.host[0] = 42.0;
    db.mark_host_modified();
    assert!(!db.is_coherent());
    assert!(db.ensure_device());
    assert!(db.is_coherent());
    // Where no download is due nothing is taken over.
    let before = db.host.clone();
    assert!(db.ensure_host(vec![0.0]));
    assert_eq!(db.host, before);
    // A copy of another length is refused.
    db.mark_device_modified();
    assert!(!db.ensure_host(vec![0.0]));
    assert!(db.needs_download());
    assert_eq!((db.len(), db.is_empty()), (4, false));
}

#[test]
fn dispatches_cover_every_atom() {
    assert_eq!(workgroups(0), 1);
    assert_eq!(workgroups(1), 1);
    assert_eq!(workgroups(64), 1);
    assert_eq!(workgroups(65), 2);
    assert_eq!(workgroups(u32::MAX), 67108864);
    assert_eq!(buffer_bytes(0, 3), 12);
    assert_eq!(buffer_bytes(10, 3), 120);
    assert_eq!(slice_offset(5), 60);
}

#[test]
fn vectors_are_flattened_and_grouped() {
    let vectors = vec![v([1.0, 2.0, 3.0]), v([4.0, 5.0, 6.0])];
    let mut flat = flat3(&vectors);
    assert_eq!(flat[3], s(4.0));
    flat.push(s(7.0));
    assert_eq!(group3(&flat), vectors);
    let mut dst = vec![v([0.0; 3]); 3];
    take_over(&mut dst, 2, &vectors);
    assert_eq!(dst, vec![vectors[0], vectors[1], v([0.0; 3])]);
    take_over(&mut dst, 1, &vec![v([9.0; 3]), v([8.0; 3])]);
    assert_eq!(dst, vec![v([9.0; 3]), vectors[1], v([0.0; 3])]);
}

#[test]
fn words_travel_as_bytes() {
    let words = [1u32, 0x01020304, SENTINEL];
    let bytes = word_bytes(&words);
    let native: Vec<u8> = words.iter().flat_map(|w| w.to_ne_bytes()).collect();
    assert_eq!(bytes, native);
    assert_eq!(read_words(&bytes, 3), Some(words.to_vec()));
    assert_eq!(read_words(&bytes, 2), Some(words[..2].to_vec()));
    assert_eq!(read_words(&bytes, 4), None);
    assert_eq!(read_words(&bytes[0..5], 1), None);
}

#[test]
fn slots_take_turns() {
    let mut slots = NeighborSlots::new(2);
    assert_eq!(slots.current(), (Side::A, Side::B));
    slots.swap();
    assert_eq!(slots.current(), (Side::B, Side::A));
    assert_eq!(slots.last_written(), Side::B);
    slots.swap();
    assert_eq!(slots.current(), (Side::A, Side::B));
    assert_eq!(slots.sizes(), (2 * 32 * 4, 2 * 32 * 3 * 4));
    let empty = slots.empty_partners();
    assert_eq!(empty, vec![0xFFu8; 2 * MAX_CONTACTS * 4]);
    assert_eq!(slots.empty_payload(), vec![0u8; 2 * MAX_CONTACTS * PAYLOAD * 4]);
}

#[test]
fn grid_surrounds_the_positions() {
    let pos = [v32([0.0, 0.0, 0.0]), v32([2.5, 1.0, 0.0])];
    let grid = Grid::from_positions(&pos, s(1.0), &ar32);
    assert_eq!(grid.n, [5, 3, 2]);
    assert_eq!(grid.origin, v([-1.0, -1.0, -1.0]));
    assert_eq!(grid.total_cells, 30);
    assert_eq!(f(grid.inverse_size(&ar32)), 1.0);
    // A huge span has more cells than can be counted.
    let far = [v32([0.0; 3]), v32([1e9, 1e9, 1e9])];
    assert!(Grid::try_from_positions(&far, s(1.0), &ar32).is_none());
    let sizes = cell_buffers(2, 30);
    assert_eq!((sizes.pos, sizes.cell_start, sizes.staging), (24, 124, 124));
}

#[test]
fn adapters_are_dealt_out() {
    assert_eq!(adapter_index(5, 4), Some(1));
    assert_eq!(adapter_index(5, 0), None);
    let mut atoms = Atom::new();
    assert_eq!(ensure_sized(Some(1), &atoms), Sizing::Skip);
    atoms.nlocal = 3;
    assert_eq!(ensure_sized(Some(3), &atoms), Sizing::Keep);
    assert_eq!(ensure_sized(Some(2), &atoms), Sizing::Build);
    assert_eq!(ensure_sized(None, &atoms), Sizing::Build);
}

#[test]
fn steps_run_the_kernels_in_order() {
    let l = ResidentLoop { n: 65, total_cells: 200, aux: 1, hooks: 2 };
    let step: Vec<Kernel> = l.record_step().iter().map(|d| d.kernel).collect();
    assert_eq!(
        step,
        vec![
            Kernel::IntegrateInitial,
            Kernel::AuxKick(0),
            Kernel::ClearCells,
            Kernel::AssignCells,
            Kernel::PrefixSum,
            Kernel::Scatter,
            Kernel::SortCells,
            Kernel::Hook(0),
            Kernel::Hook(1),
            Kernel::IntegrateFinal,
            Kernel::AuxKick(0),
        ]
    );
    let prime = l.record_force(true);
    assert_eq!(prime[5].kernel, Kernel::SeedGravity);
    assert_eq!(prime[5].groups, 2);
    assert_eq!(prime[6].kernel, Kernel::HookPrime(0));
    assert_eq!(l.record_force(false)[7].kernel, Kernel::Hook(1));
    assert_eq!(l.record_binning()[0].groups, 4);
}

use grass_io::{RunConfig, StageConfig};
use soil::atom::Atom;
use soil::atom_data::{AtomData, AtomDataRegistry, Field};
use soil::bond::{BondEntry, BondStore};
use soil::columns::ColumnStore;
use soil::dump::{BoxInfo, DumpConfig, DumpFrame};
use soil::dump_formats::{write_dump_binary, write_dump_lammps, write_dump_text};
use soil::dump_registry::{
    build_frame, frame_stem, gather_role, output_directory, unknown_format_warning, DumpRegistry,
    GatherRole,
};
use soil::group::{Group, GroupDef, GroupRegistry};
use soil::restart::{
    latest_restart, restart_extension, restart_path, restore, RestartConfig, RestartData,
};
use soil::scalar::{Op, Scalar, Vec3};
use soil::stages::{output_due, override_or, stage_end_save, stage_interval};
use soil::store::Store;
use soil::text::{decimal, join, pad, parse_count, signed_decimal, write_lines, Style};
use soil::thermo::{
    capitalize, default_columns, group_totals, output_virial_to_thermo, parse_thermo_column,
    print_thermo, refresh_atom_count, setup_thermo, thermo_header, thermo_rule, with_head,
    GroupTotal, Thermo, ThermoConfig, ThermoTotals,
};
use soil::virial::VirialStress;
use soil::vtp::{vtp_path, write_vtp};

fn s(x: f64) -> Scalar {
    Scalar { bits: x.to_bits() }
}

fn f(x: Scalar) -> f64 {
    f64::from_bits(x.bits)
}

fn v(x: [f64; 3]) -> Vec3 {
    [s(x[0]), s(x[1]), s(x[2])]
}

fn ar(op: Op, a: Scalar, b: Scalar, c: Scalar) -> Scalar {
    s(match op {
        Op::Add => f(a) + f(b),
        Op::Sub => f(a) - f(b),
        Op::Mul => f(a) * f(b),
        Op::Div => f(a) / f(b),
        Op::Sqrt => f(a).sqrt(),
        Op::MulAdd => f(a).mul_add(f(b), f(c)),
    })
}

fn show(style: Style, x: Scalar) -> String {
    let x = f(x);
    match style {
        Style::Plain => format!("{}", x),
        Style::Fixed(n) => format!("{:.*}", n, x),
        Style::Exponent(n) => format!("{:.*e}", n, x),
    }
}

#[test]
fn test_default_columns_backward_compat() {
    let config = ThermoConfig::default();
    assert!(config.columns.is_none());
    let cols = config.columns.unwrap_or_else(default_columns);
    assert_eq!(cols, vec!["step", "atoms", "ke", "neighbors", "walltime", "stepps"]);
}

#[test]
fn test_column_parsing() {
    let col = parse_thermo_column("temp/mobile");
    assert_eq!(col.compute_name, "temp");
    assert_eq!(col.group_name.as_deref(), Some("mobile"));
    assert_eq!(col.header, "Temp/mobile");

    let col2 = parse_thermo_column("step");
    assert_eq!(col2.compute_name, "step");
    assert!(col2.group_name.is_none());
    assert_eq!(col2.header, "Step");
}

#[test]
fn test_user_value_set_and_read() {
    let mut thermo = Thermo::new();
    assert!(thermo.values.get("pe").is_none());
    thermo.set("pe", s(42.0));
    assert_eq!(f(thermo.values.get("pe").unwrap()), 42.0);
    thermo.set("pe", s(99.0));
    assert_eq!(f(thermo.values.get("pe").unwrap()), 99.0);
}

#[test]
fn test_capitalize() {
    assert_eq!(capitalize("step"), "Step");
    assert_eq!(capitalize("ke"), "Ke");
    assert_eq!(capitalize(""), "");
    assert_eq!(capitalize("a"), "A");
}

#[test]
fn test_dump_registry_has_callbacks() {
    let mut reg: DumpRegistry<fn(&Atom) -> Vec<Scalar>, (), ()> = DumpRegistry::new();
    assert!(!reg.has_callbacks());
    reg.register_scalar("test".to_string(), |_atoms| vec![]);
    assert!(reg.has_callbacks());
}

#[test]
fn test_column_width_minimum() {
    let col = parse_thermo_column("ke");
    // "Ke" is 2 chars, but minimum width is 12
    assert_eq!(col.width, 12);
}

#[test]
fn test_column_width_long_header() {
    let col = parse_thermo_column("virial_xx/long_group_name");
    // "Virial_xx/long_group_name" is 25 chars > 12
    assert!(col.width >= 12);
    assert_eq!(col.width, col.header.len());
}

#[test]
fn upper_case_may_be_longer_than_one_character() {
    assert_eq!(capitalize("\u{df}eta"), "SSeta");
    assert_eq!(with_head("abc", "XY"), "XYbc");
    let col = parse_thermo_column("a/b/c");
    assert_eq!(col.compute_name, "a");
    assert_eq!(col.group_name.as_deref(), Some("b/c"));
    assert_eq!(col.header, "A/b/c");
}

#[test]
fn numbers_and_fields() {
    assert_eq!(decimal(0), "0");
    assert_eq!(decimal(18446744073709551615), "18446744073709551615");
    assert_eq!(signed_decimal(-2147483648), "-2147483648");
    assert_eq!(signed_decimal(7), "7");
    assert_eq!(pad("ab", 4), "ab  ");
    assert_eq!(pad("abcde", 4), "abcde");
    assert_eq!(join(&vec!["a".to_string(), "b".to_string()], ", "), "a, b");
    assert_eq!(write_lines(&vec!["a".to_string(), "b".to_string()]), "a\nb\n");
}

#[test]
fn counts_are_read_as_written() {
    for n in [0u64, 7, 10, 99, 100, 12345, 18446744073709551615] {
        assert_eq!(parse_count(&decimal(n)), Some(n as usize));
    }
    assert_eq!(parse_count("+5"), Some(5));
    assert_eq!(parse_count("007"), Some(7));
    assert_eq!(parse_count(""), None);
    assert_eq!(parse_count("+"), None);
    assert_eq!(parse_count("-1"), None);
    assert_eq!(parse_count("1a"), None);
    assert_eq!(parse_count("18446744073709551616"), None);
}

fn stage(key: &str, value: Option<i64>, save_at_end: bool) -> StageConfig {
    let mut overrides = toml::Table::new();
    if let Some(i) = value {
        overrides.insert(key.to_string(), toml::Value::Integer(i));
    }
    StageConfig { save_at_end, overrides, ..Default::default() }
}

#[test]
fn stages_override_intervals() {
    let mut third = stage("thermo", None, false);
    third.overrides.insert("thermo".to_string(), toml::Value::String("often".to_string()));
    let run = RunConfig { stages: vec![stage("thermo", Some(25), false), stage("other", Some(3), false), third] };
    assert_eq!(stage_interval(&run, 0, "thermo", 100), 25);
    assert_eq!(stage_interval(&run, 1, "thermo", 100), 100);
    assert_eq!(stage_interval(&run, 1, "other", 100), 3);
    assert_eq!(stage_interval(&run, 2, "thermo", 100), 100);
    // Past the end the last stage counts.
    assert_eq!(stage_interval(&run, 9, "thermo", 7), 7);
    assert_eq!(override_or(None, 5), 5);
    assert!(output_due(200, 100) && !output_due(201, 100) && !output_due(0, 0));
}

#[test]
fn stages_save_at_their_last_step() {
    let run = RunConfig { stages: vec![stage("x", None, true), stage("x", None, false)] };
    let remaining = vec![10, 10];
    assert!(stage_end_save(&run, 0, &remaining, &vec![9, 0], false));
    assert!(!stage_end_save(&run, 0, &remaining, &vec![8, 0], false));
    assert!(stage_end_save(&run, 0, &remaining, &vec![8, 0], true));
    assert!(!stage_end_save(&run, 1, &remaining, &vec![9, 9], true));
    assert!(!stage_end_save(&run, 0, &vec![0, 10], &vec![0, 0], true));
    assert!(!stage_end_save(&run, 5, &remaining, &vec![9, 9], true));
}

#[test]
fn thermo_is_set_up_once_per_stage() {
    let run = RunConfig { stages: vec![stage("thermo", Some(50), false)] };
    let mut thermo = Thermo::new();
    let mut virial = Some(VirialStress::default());
    let config = ThermoConfig { columns: Some(vec!["step".to_string(), "ke/mobile".to_string()]) };
    assert!(setup_thermo(&mut thermo, &mut virial, &config, &run, 0, 30));
    assert_eq!((thermo.interval, thermo.last_printed_step), (50, 30));
    assert_eq!(virial.as_ref().unwrap().interval, Some(50));
    assert_eq!(thermo.columns.len(), 2);
    // Past the last stage nothing happens; the columns are chosen once.
    assert!(!setup_thermo(&mut thermo, &mut virial, &ThermoConfig::default(), &run, 1, 60));
    assert_eq!(thermo.last_printed_step, 30);
    assert!(setup_thermo(&mut thermo, &mut virial, &ThermoConfig::default(), &run, 0, 60));
    assert_eq!(thermo.columns.len(), 2);
    assert_eq!(thermo_header(&thermo.columns), "Step         Ke/mobile   ");
    assert_eq!(thermo_rule(&thermo.columns), "-".repeat(25));
}

fn two_atoms() -> Atom {
    let mut atoms = Atom::new();
    atoms.push_test_atom(5, v([0.0, 1.0, 2.0]), s(0.5), s(1.0), &ar);
    atoms.push_test_atom(9, v([3.0, 4.0, 5.5]), s(0.25), s(2.0), &ar);
    atoms.vel[0] = v([3.0, 4.0, 0.0]);
    atoms.vel[1] = v([0.0, 1.0, 0.0]);
    atoms.nlocal = 2;
    atoms.natoms = 2;
    atoms.dt = s(0.125);
    atoms
}

fn group(name: &str, mask: Vec<bool>) -> Group {
    let count = mask.iter().filter(|&&m| m).count();
    Group {
        name: name.to_string(),
        def: GroupDef { name: name.to_string(), atom_types: None, region: None, dynamic: None },
        mask,
        count,
    }
}

#[test]
fn thermo_row_shows_every_column() {
    let mut thermo = Thermo::new();
    for name in ["step", "atoms", "ke", "temp", "neighbors", "walltime", "stepps", "atoms/a", "ke/a", "temp/a", "ke/none", "pe", "q"] {
        thermo.columns.push(parse_thermo_column(name));
    }
    thermo.set("pe", s(-2.5));
    thermo.last_printed_step = 100;
    let totals = ThermoTotals {
        ke: s(12.0),
        atoms: s(3.0),
        neighbors: s(8.0),
        groups: vec![GroupTotal { name: "a".to_string(), ke: s(1.5), count: s(1.0) }],
        elapsed: s(0.5),
    };
    let row = print_thermo(&mut thermo, 200, &totals, &ar, &show);
    let cells: Vec<&str> = row.split_whitespace().collect();
    assert_eq!(
        cells,
        vec!["200", "3", "1.200000e1", "4.000000", "8", "0.5000", "200.0", "1", "1.500000e0", "0.000000", "0.000000e0", "-2.500000e0", "N/A"]
    );
    assert!(row.starts_with("200          3            1.200000e1   "));
    assert_eq!(thermo.last_printed_step, 200);
    assert!(thermo.is_due(300) && !thermo.is_due(301));
    // Hardly any time has passed.
    let quick = ThermoTotals { elapsed: s(1e-10), groups: vec![], ke: s(0.0), atoms: s(0.0), neighbors: s(0.0) };
    thermo.columns = vec![parse_thermo_column("stepps")];
    assert_eq!(print_thermo(&mut thermo, 300, &quick, &ar, &show).trim_end(), "0.0");
}

#[test]
fn group_totals_follow_the_columns() {
    let atoms = two_atoms();
    let mut groups = GroupRegistry::new();
    groups.groups.push(group("a", vec![true, false]));
    groups.groups.push(group("b", vec![true, true]));
    let columns = vec![
        parse_thermo_column("ke/b"),
        parse_thermo_column("ke"),
        parse_thermo_column("temp/a"),
        parse_thermo_column("atoms/b"),
        parse_thermo_column("ke/missing"),
    ];
    let totals = group_totals(&columns, &groups, &atoms, &ar);
    assert_eq!(totals.len(), 2);
    assert_eq!((totals[0].name.as_str(), f(totals[0].ke), f(totals[0].count)), ("b", 13.5, 2.0));
    assert_eq!((totals[1].name.as_str(), f(totals[1].ke), f(totals[1].count)), ("a", 12.5, 1.0));
}

#[test]
fn virial_is_reported_by_component() {
    let mut thermo = Thermo::new();
    thermo.set("pe", s(1.0));
    output_virial_to_thermo(&mut thermo, [s(1.0), s(2.0), s(3.0), s(4.0), s(5.0), s(6.0)]);
    assert_eq!(f(thermo.values.get("virial_xx").unwrap()), 1.0);
    assert_eq!(f(thermo.values.get("virial_xy").unwrap()), 4.0);
    assert_eq!(f(thermo.values.get("virial_yz").unwrap()), 6.0);
    assert_eq!(f(thermo.values.get("pe").unwrap()), 1.0);
    let mut atoms = two_atoms();
    refresh_atom_count(&mut atoms, s(17.0));
    assert_eq!(atoms.natoms, 17);
}

#[test]
fn last_registered_format_is_used() {
    let mut reg: DumpRegistry<(), (), i32> = DumpRegistry::default();
    reg.register_format("text".to_string(), 1);
    reg.register_format("binary".to_string(), 2);
    reg.register_format("text".to_string(), 3);
    assert_eq!(reg.find_format("text"), Some(&3));
    assert_eq!(reg.find_format("binary"), Some(&2));
    assert_eq!(reg.find_format("none"), None);
    assert_eq!(reg.format_names(), vec!["text", "binary", "text"]);
    assert_eq!(
        unknown_format_warning("x", &reg.format_names()),
        "WARNING: unknown dump format 'x' \u{2014} no writer registered (available: text, binary, text)"
    );
}

fn frame_of(atoms: &Atom, ghosts: bool) -> DumpFrame {
    let scalars = vec![("q".to_string(), vec![s(0.5)])];
    let vectors = vec![("w".to_string(), vec![v([1.0, 2.0, 3.0])])];
    build_frame(atoms, ghosts, 40, BoxInfo::default(), &scalars, &vectors)
}

#[test]
fn frames_hold_the_local_atoms_or_all() {
    let mut atoms = two_atoms();
    atoms.nlocal = 1;
    atoms.nghost = 1;
    let local = frame_of(&atoms, false);
    assert_eq!((local.n(), local.stride()), (1, 16));
    assert_eq!(local.tag, vec![5]);
    let all = frame_of(&atoms, true);
    assert_eq!((all.n(), all.stride()), (2, 17));
    assert_eq!(all.is_ghost, Some(vec![false, true]));
    // The registered columns hold values of local atoms; the rest is zero.
    assert_eq!(all.scalars[0].1, vec![s(0.5), s(0.0)]);
    assert_eq!(all.vectors[0].1[1], v([0.0; 3]));
}

#[test]
fn gathered_frames_keep_every_atom() {
    let atoms = two_atoms();
    let other = frame_of(&atoms, true);
    let mut first = frame_of(&atoms, true);
    let mut message = other.pack(&ar);
    assert_eq!(message.len(), 34);
    message.push(s(1.0));
    first.push_unpacked(&message);
    assert_eq!(first.n(), 4);
    assert_eq!(first.tag, vec![5, 9, 5, 9]);
    assert_eq!(first.pos[3], v([3.0, 4.0, 5.5]));
    assert_eq!(first.radius[2], s(0.5));
    assert_eq!(first.scalars[0].1, vec![s(0.5), s(0.0), s(0.5), s(0.0)]);
    assert_eq!(first.vectors[0].1[2], v([1.0, 2.0, 3.0]));
    assert_eq!(first.is_ghost, Some(vec![false; 4]));
    assert_eq!(gather_role(0, 1), GatherRole::Alone);
    assert_eq!(gather_role(0, 2), GatherRole::Root);
    assert_eq!(gather_role(1, 2), GatherRole::Sender);
}

#[test]
fn large_tags_travel_rounded() {
    let mut frame = frame_of(&two_atoms(), false);
    frame.tag[0] = 9007199254740992;
    frame.tag[1] = 9007199254740993;
    let mut other = frame_of(&two_atoms(), false);
    other.push_unpacked(&frame.pack(&ar));
    assert_eq!(other.tag[2], 9007199254740992);
    assert_eq!(other.tag[3], 9007199254740993u64 as f64 as u64);
}

#[test]
fn text_dump_has_a_header_and_a_line_per_atom() {
    let mut atoms = two_atoms();
    atoms.nlocal = 1;
    let text = write_dump_text(&frame_of(&atoms, true), &show);
    assert_eq!(
        text,
        "tag,type,x,y,z,vx,vy,vz,fx,fy,fz,radius,q,w_x,w_y,w_z,IsGhost\n\
         5,0,0,1,2,3,4,0,0,0,0,0.5,0.5,1,2,3,0\n\
         9,0,3,4,5.5,0,1,0,0,0,0,0.25,0,0,0,0,1\n"
    );
}

#[test]
fn lammps_dump_has_a_box_and_a_line_per_atom() {
    let mut frame = frame_of(&two_atoms(), false);
    frame.box_info.periodic = [true, false, true];
    frame.box_info.high = v([1.0, 2.5, 3.0]);
    let text = write_dump_lammps(&frame, &show);
    assert_eq!(
        text,
        "ITEM: TIMESTEP\n40\nITEM: NUMBER OF ATOMS\n2\nITEM: BOX BOUNDS pp ff pp\n\
         0 1\n0 2.5\n0 3\n\
         ITEM: ATOMS id type x y z vx vy vz fx fy fz radius q w_x w_y w_z\n\
         5 0 0 1 2 3 4 0 0 0 0 0.5 0.5 1 2 3\n\
         9 0 3 4 5.5 0 1 0 0 0 0 0.25 0 0 0 0\n"
    );
}

#[test]
fn binary_dump_reads_back_by_place() {
    let frame = frame_of(&two_atoms(), true);
    let bytes = write_dump_binary(&frame);
    let size = 8 + 8 * 14 + 1;
    assert_eq!(bytes.len(), 4 + 2 * size);
    assert_eq!(bytes[0..4], 2u32.to_le_bytes());
    let second = 4 + size;
    assert_eq!(bytes[second..second + 4], 9u32.to_le_bytes());
    let z = second + 8 + 16;
    assert_eq!(bytes[z..z + 8], 5.5f64.to_le_bytes());
    assert_eq!(bytes[second + size - 1], 0);
}

#[test]
fn output_has_its_own_directories() {
    assert_eq!(output_directory(Some("out"), "dump"), "out/dump");
    assert_eq!(output_directory(None, "restart"), "restart");
    assert_eq!(frame_stem("out/dump", 20, None), "out/dump/dump_20");
    assert_eq!(frame_stem("dump", 20, Some(3)), "dump/dump_20_rank3");
    assert_eq!(vtp_path("vtp", 20, 3), "vtp/20CYCLE_3RANK.vtp");
    assert_eq!(restart_path("restart", 20, 3, "bin"), "restart/restart_20_rank3.bin");
    assert_eq!(restart_extension("json"), "json");
    assert_eq!(restart_extension("anything"), "bin");
    assert_eq!(DumpConfig::default().format, "text");
    assert_eq!(RestartConfig::default().format, "bincode");
}

#[test]
fn vtp_file_lists_points_and_arrays() {
    let mut atoms = two_atoms();
    atoms.nlocal = 1;
    let scalars = vec![("q".to_string(), vec![s(0.5)])];
    let vectors = vec![("w".to_string(), vec![v([1.0, 2.0, 3.0])])];
    let text = write_vtp(&atoms, &scalars, &vectors, &ar, &show);
    assert_eq!(
        text,
        "<?xml version=\"1.0\" encoding=\"UTF-8\"?>\n\
         <VTKFile type=\"PolyData\" version=\"0.1\" byte_order=\"LittleEndian\">\n<PolyData>\n\
         <Piece NumberOfPoints=\"2\">\n\
         <Points><DataArray type=\"Float32\" NumberOfComponents=\"3\" format=\"ascii\">\
         0 1 2\n3 4 5.5\n</DataArray>\n</Points>\n\
         <PointData Scalars=\"\" Vectors=\"\">\n\
         <DataArray type=\"Float32\" Name=\"Radius\" format=\"ascii\">\n0.5\n0.25\n</DataArray>\
         <DataArray type=\"Float32\" Name=\"Vel_Mag\" format=\"ascii\">\n5\n1\n</DataArray>\
         <DataArray type=\"Int32\" Name=\"IsGhost\" format=\"ascii\">\n0\n1\n</DataArray>\
         <DataArray type=\"Float32\" Name=\"q\" format=\"ascii\">\n0.5\n0\n</DataArray>\
         <DataArray type=\"Float32\" Name=\"w\" NumberOfComponents=\"3\" format=\"ascii\">\n1 2 3\n0 0 0\n</DataArray>\
         </PointData>\n</Piece>\n</PolyData>\n</VTKFile>\n"
    );
}

#[test]
fn latest_checkpoint_of_the_process_is_found() {
    let names: Vec<String> = [
        "restart_5_rank1.bin",
        "restart_30_rank1.bin",
        "restart_9_rank1.bin",
        "restart_99_rank11.bin",
        "restart_99_rank1.json",
        "restart_x_rank1.bin",
        "other",
    ]
    .iter()
    .map(|n| n.to_string())
    .collect();
    assert_eq!(latest_restart(&names, 1, "bin"), Some(30));
    assert_eq!(latest_restart(&names, 11, "bin"), Some(99));
    assert_eq!(latest_restart(&names, 1, "json"), Some(99));
    assert_eq!(latest_restart(&names, 2, "bin"), None);
}

fn columns(values: &[f64]) -> ColumnStore {
    let mut store = ColumnStore::new(&vec![Field { width: 1, forward: true, reverse: false, zero: false }]);
    store.columns[0].values = values.iter().map(|&x| vec![s(x)]).collect();
    store
}

#[test]
fn saved_atoms_and_their_data_return() {
    let atoms = two_atoms();
    let mut bonds = BondStore::new();
    bonds.bonds.push(vec![BondEntry { partner_tag: 9, bond_type: 2, r0: s(1.5) }]);
    bonds.bonds.push(vec![]);
    let mut registry = AtomDataRegistry::new();
    registry.register(1, Store::Bonds(bonds));
    registry.register(2, Store::Columns(columns(&[7.0, 8.0])));
    let data = RestartData::from_atoms(&atoms, &registry, 77);
    assert_eq!(data.pos_z, vec![s(2.0), s(5.5)]);

    let mut fresh = Atom::new();
    let mut empty = AtomDataRegistry::new();
    empty.register(1, Store::Bonds(BondStore::new()));
    empty.register(2, Store::Columns(columns(&[])));
    assert_eq!(restore(data, &mut fresh, &mut empty, &ar), 77);
    assert_eq!((fresh.nlocal, fresh.nghost, fresh.natoms), (2, 0, 2));
    assert_eq!(fresh.tag, atoms.tag);
    assert_eq!(fresh.pos, atoms.pos);
    assert_eq!(fresh.vel, atoms.vel);
    assert_eq!(fresh.inv_mass, vec![s(1.0), s(0.5)]);
    assert_eq!(fresh.dt, s(0.125));
    match (empty.expect(1), empty.expect(2)) {
        (Store::Bonds(b), Store::Columns(c)) => {
            assert_eq!(b.bonds.len(), 2);
            assert_eq!((b.bonds[0][0].partner_tag, b.bonds[0][0].r0), (9, s(1.5)));
            assert_eq!(c.columns[0].values, vec![vec![s(7.0)], vec![s(8.0)]]);
        }
        _ => panic!("the stores keep their forms"),
    }
}

#[test]
fn saved_atoms_take_the_place_of_others() {
    let atoms = two_atoms();
    let mut registry = AtomDataRegistry::new();
    registry.register(2, Store::Columns(columns(&[7.0, 8.0])));
    let data = RestartData::from_atoms(&atoms, &registry, 5);
    // Five other atoms with other data, and a store that nothing was saved of.
    let mut other = Atom::new();
    for k in 0..5 {
        other.push_test_atom(k, [s(0.0); 3], s(0.5), s(1.0), &ar);
        other.image[k as usize] = [1, 2, 3];
    }
    other.nlocal = 5;
    let mut stores = AtomDataRegistry::new();
    stores.register(2, Store::Columns(columns(&[1.0, 2.0, 3.0, 4.0, 5.0])));
    stores.register(3, Store::Columns(columns(&[6.0])));
    assert!(stores.restart_readable(&data.atom_data_buffers));
    assert_eq!(restore(data, &mut other, &mut stores, &ar), 5);
    assert_eq!((other.len(), other.nlocal, other.nghost), (2, 2, 0));
    assert_eq!(other.image, vec![[0, 0, 0], [0, 0, 0]]);
    assert_eq!((other.tag.len(), other.is_ghost.len(), other.inv_mass.len()), (2, 2, 2));
    match (stores.expect(2), stores.expect(3)) {
        (Store::Columns(a), Store::Columns(b)) => {
            assert_eq!(a.columns[0].values, vec![vec![s(7.0)], vec![s(8.0)]]);
            assert_eq!(b.columns[0].values, vec![vec![s(6.0)]]);
        }
        _ => panic!("the stores keep their forms"),
    }
}

#[test]
fn broken_extension_data_are_told() {
    let mut stores = AtomDataRegistry::new();
    let two = Field { width: 2, forward: true, reverse: false, zero: false };
    stores.register(1, Store::Columns(ColumnStore::new(&vec![two])));
    stores.register(2, Store::Bonds(BondStore::new()));
    assert!(stores.restart_readable(&vec![vec![s(1.0), s(2.0)], vec![s(0.0)]]));
    assert!(!stores.restart_readable(&vec![vec![s(1.0)], vec![]]));
    assert!(!stores.restart_readable(&vec![vec![], vec![s(1.0), s(2.0)]]));
    assert!(stores.restart_readable(&vec![]));
    assert_eq!(stores.measure_all(&[s(1.0), s(2.0), s(0.0), s(9.0)]), Some(3));
    assert_eq!(stores.measure_all(&[s(1.0), s(2.0), s(1.0), s(9.0)]), None);
}

#[test]
fn a_store_without_columns_packs_nothing() {
    let mut store = ColumnStore::new(&vec![]);
    assert_eq!(store.unpack(&[]), 0);
    let mut buf = Vec::new();
    store.pack(0, &mut buf);
    assert!(buf.is_empty());
    assert_eq!((store.forward_comm_size(), store.reverse_comm_size()), (0, 0));
}

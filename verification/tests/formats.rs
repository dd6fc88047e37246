//! Per-format behaviors: accepted layouts, leniencies and every error kind.

use chem_files_importer::codec::decode_coords;
use chem_files_importer::decimal::Real;
use chem_files_importer::errors::ErrorKind;
use chem_files_importer::parsers::{cfour, cube, mdlmol2000, unex, xyz};
use chem_files_importer::picking::{id_to_color, next_id, Color, MAX_ID};
use chem_files_importer::table::PeriodicTable;

fn small_table() -> PeriodicTable {
    let mut t = PeriodicTable::new();
    t.push_element(String::from("H"), 1);
    t.push_element(String::from("C"), 6);
    t.push_element(String::from("N"), 7);
    t.push_element(String::from("O"), 8);
    t
}

fn real_to_f64(r: &Real) -> f64 {
    let sign = if r.neg { -1.0 } else { 1.0 };
    sign * (r.mant as f64) * 10f64.powi(r.exp as i32)
}

#[test]
fn xyz_trajectory_yields_one_node_per_block() {
    let table = small_table();
    let content = "1\nfirst\nO 0.0 0.0 0.0\n1\nsecond\nH 1.0 2.0 3.0\n";
    let node = xyz::parse(content, "t.xyz", &table).unwrap();
    assert_eq!(node.children.len(), 2);
    assert_eq!(node.children[0].name, "first");
    assert_eq!(node.children[1].name, "second");
}

#[test]
fn xyz_blank_line_ends_the_walk() {
    let table = small_table();
    let content = "1\na\nO 0.0 0.0 0.0\n\n1\nb\nO 0.0 0.0 0.0\n";
    let node = xyz::parse(content, "t.xyz", &table).unwrap();
    assert_eq!(node.children.len(), 1);
}

#[test]
fn xyz_blank_comment_gets_a_positional_title() {
    let table = small_table();
    let content = "1\n\nO 0.0 0.0 0.0\n";
    let node = xyz::parse(content, "t.xyz", &table).unwrap();
    assert_eq!(node.children[0].name, "Set@line=1");
}

#[test]
fn xyz_numeric_element_field_is_taken_as_atomic_number() {
    let table = small_table();
    let content = "2\nions\n-1 0.0 0.0 0.0\n26 1.0 1.0 1.0\n";
    let node = xyz::parse(content, "t.xyz", &table).unwrap();
    let coords = decode_coords(&node.children[0].data).unwrap();
    assert_eq!(coords.atomic_num, vec![-1, 26]);
}

#[test]
fn xyz_unfinished_block_is_dropped_without_error() {
    let table = small_table();
    let content = "3\npartial\nO 0.0 0.0 0.0\nH 0.0 0.0 1.0\n";
    let node = xyz::parse(content, "t.xyz", &table).unwrap();
    assert_eq!(node.children.len(), 0);
}

#[test]
fn xyz_errors_carry_the_line() {
    let table = small_table();
    let e = xyz::parse("abc\n", "t.xyz", &table).unwrap_err();
    assert_eq!((e.line, e.kind), (1, ErrorKind::ExpectedAtomCount));
    let e = xyz::parse("0\n", "t.xyz", &table).unwrap_err();
    assert_eq!((e.line, e.kind), (1, ErrorKind::ZeroAtoms));
    let e = xyz::parse("1\nc\nO 0.0 0.0\n", "t.xyz", &table).unwrap_err();
    assert_eq!((e.line, e.kind), (3, ErrorKind::InvalidAtomCard));
    let e = xyz::parse("1\nc\nO 0.0 zz 0.0\n", "t.xyz", &table).unwrap_err();
    assert_eq!((e.line, e.kind), (3, ErrorKind::InvalidCoordinate));
}

#[test]
fn xyz_recognizer_checks_the_first_cards() {
    assert!(xyz::test("2\nanything here\nO 0.0 0.0 0.0\nH 1e-3 +2.5 -.75\n"));
    assert!(!xyz::test("0\nc\n"));
    assert!(!xyz::test(""));
    assert!(!xyz::test("2\nc\nO 0.0 0.0 0.0 extra\nH 0.0 0.0 0.0\n"));
    assert!(!xyz::test("not a count\nc\n"));
}

#[test]
fn cube_reads_negative_count_and_dataset_ids() {
    let content = "a\nb\n-1 0.0 0.0 0.0\n1 1.0 0.0 0.0\n1 0.0 1.0 0.0\n1 0.0 0.0 1.0\n6 6.0 2.0 0.0 0.0\n1 10\n0.125\n";
    let node = cube::parse(content, "a.cube").unwrap();
    assert_eq!(node.children.len(), 1);
    assert_eq!(node.children[0].name, "CubeMol");
    let coords = decode_coords(&node.children[0].data).unwrap();
    assert_eq!(coords.atomic_num, vec![6]);
    assert!((real_to_f64(&coords.x[0]) - 2.0 * 0.529177210903).abs() < 1e-12);
}

#[test]
fn cube_error_kinds() {
    let e = cube::parse("a\nb\n", "c").unwrap_err();
    assert_eq!(e.kind, ErrorKind::UnexpectedEnd);
    let e = cube::parse("a\nb\n1 0.0 0.0\n", "c").unwrap_err();
    assert_eq!((e.line, e.kind), (3, ErrorKind::InvalidHeader));
    let e = cube::parse("a\nb\nxx 0.0 0.0 0.0\n", "c").unwrap_err();
    assert_eq!((e.line, e.kind), (3, ErrorKind::ExpectedAtomCount));
    let e = cube::parse("a\nb\n1 0.0 0.0 0.0 2\nrest\n", "c").unwrap_err();
    assert_eq!(e.kind, ErrorKind::UnsupportedValuesPerVoxel(2));
    let e = cube::parse("a\nb\n1 zz 0.0 0.0\n", "c").unwrap_err();
    assert_eq!((e.line, e.kind), (3, ErrorKind::InvalidCoordinate));
    let base = "a\nb\n1 0.0 0.0 0.0\n";
    let e = cube::parse(&format!("{}1 1.0\n1 0.0 1.0 0.0\n1 0.0 0.0 1.0\n", base), "c").unwrap_err();
    assert_eq!((e.line, e.kind), (4, ErrorKind::InvalidGridLine));
    let e = cube::parse(&format!("{}zz 1.0 0.0 0.0\n1 0.0 1.0 0.0\n1 0.0 0.0 1.0\n", base), "c")
        .unwrap_err();
    assert_eq!((e.line, e.kind), (4, ErrorKind::InvalidGridCount));
    let e = cube::parse(&format!("{}1 1.0 zz 0.0\n1 0.0 1.0 0.0\n1 0.0 0.0 1.0\n", base), "c")
        .unwrap_err();
    assert_eq!((e.line, e.kind), (4, ErrorKind::InvalidGridVector));
    let grids = "1 1.0 0.0 0.0\n1 0.0 1.0 0.0\n1 0.0 0.0 1.0\n";
    let e = cube::parse(&format!("{}{}6 6.0 0.0 0.0\n", base, grids), "c").unwrap_err();
    assert_eq!((e.line, e.kind), (7, ErrorKind::InvalidAtomCard));
    let e = cube::parse(&format!("{}{}zz 6.0 0.0 0.0 0.0\n", base, grids), "c").unwrap_err();
    assert_eq!((e.line, e.kind), (7, ErrorKind::InvalidAtomNumber));
    let e = cube::parse(&format!("{}{}6 6.0 zz 0.0 0.0\n", base, grids), "c").unwrap_err();
    assert_eq!((e.line, e.kind), (7, ErrorKind::InvalidCoordinate));
    let e = cube::parse(&format!("{}{}6 6.0 0.0 0.0 0.0\nbad\n", base, grids), "c").unwrap_err();
    assert_eq!((e.line, e.kind), (8, ErrorKind::InvalidVolumeValue));
    let dset_base = "a\nb\n-1 0.0 0.0 0.0\n";
    let e = cube::parse(&format!("{}{}6 6.0 0.0 0.0 0.0\n2\n0.5\n", dset_base, grids), "c")
        .unwrap_err();
    assert_eq!((e.line, e.kind), (8, ErrorKind::UnsupportedIdsPerVoxel(2)));
}

#[test]
fn cube_recognizer_needs_six_shaped_lines() {
    assert!(cube::test("a\nb\n1 0.0 0.0 0.0\n1 1.0 0.0 0.0\n1 0.0 1.0 0.0\n1 0.0 0.0 1.0\n"));
    assert!(!cube::test("a\nb\n1 0.0 0.0 0.0\n1 1.0 0.0 0.0\n1 0.0 1.0 0.0\n"));
    assert!(!cube::test("a\nb\nzz 0.0 0.0 0.0\n1 1.0 0.0 0.0\n1 0.0 1.0 0.0\n1 0.0 0.0 1.0\n"));
}

#[test]
fn cfour_blocks_are_numbered_sets() {
    let banner = "<<<     CCCCCC     CCCCCC   |||     CCCCCC     CCCCCC   >>>";
    let marker = "Z-matrix   Atomic            Coordinates (in bohr)";
    let content = format!(
        "log\n{}\nnoise\n{}\nhdr1\nhdr2\nO 8 1.0 0.0 0.0\nX 0 0.0 0.0 0.0\nshort row\n----\ntext\n{}\nhdr1\nhdr2\nH 1 0.0 0.0 2.0\n----\n",
        banner, marker, marker,
    );
    assert!(cfour::test(&content));
    let node = cfour::parse(&content, "c.log").unwrap();
    assert_eq!(node.children.len(), 2);
    assert_eq!(node.children[0].name, "Set#1");
    assert_eq!(node.children[1].name, "Set#2");
    let first = decode_coords(&node.children[0].data).unwrap();
    assert_eq!(first.atomic_num, vec![8, -1]);
    assert!((real_to_f64(&first.x[0]) - 0.529177210903).abs() < 1e-12);
    let second = decode_coords(&node.children[1].data).unwrap();
    assert_eq!(second.atomic_num, vec![1]);
}

#[test]
fn cfour_banner_outside_the_window_is_not_recognized() {
    let banner = "<<<     CCCCCC     CCCCCC   |||     CCCCCC     CCCCCC   >>>";
    let mut content = String::new();
    for _ in 0..25 {
        content.push_str("filler\n");
    }
    content.push_str(banner);
    content.push('\n');
    assert!(!cfour::test(&content));
    let on_first_line = format!("{}\n", banner);
    assert!(!cfour::test(&on_first_line));
}

#[test]
fn mdl_parses_one_titled_block() {
    let table = small_table();
    let content = "glucose\nprogram line\ncomment\n  2  1  0  0  0  0  0  0  0  0999 V2000\n0.0 0.0 0.0 O\n0.0 0.0 0.96 H\nbonds ignored\n";
    assert!(mdlmol2000::test(content));
    let node = mdlmol2000::parse(content, "m.mol", &table).unwrap();
    assert_eq!(node.children.len(), 1);
    assert_eq!(node.children[0].name, "glucose");
    let coords = decode_coords(&node.children[0].data).unwrap();
    assert_eq!(coords.atomic_num, vec![8, 1]);
}

#[test]
fn mdl_blank_title_falls_back_to_the_file_name() {
    let table = small_table();
    let content = "\n\n\n1 0 V2000\n0.0 0.0 0.0 O\n";
    let node = mdlmol2000::parse(content, "fallback.mol", &table).unwrap();
    assert_eq!(node.children[0].name, "fallback.mol");
}

#[test]
fn mdl_error_kinds() {
    let table = small_table();
    let e = mdlmol2000::parse("t\n\n\nzz 0\n", "m", &table).unwrap_err();
    assert_eq!((e.line, e.kind), (4, ErrorKind::ExpectedAtomCount));
    let e = mdlmol2000::parse("t\n\n\n1\n", "m", &table).unwrap_err();
    assert_eq!((e.line, e.kind), (4, ErrorKind::ExpectedBondCount));
    let e = mdlmol2000::parse("t\n\n\n0 0\n", "m", &table).unwrap_err();
    assert_eq!((e.line, e.kind), (4, ErrorKind::ZeroAtoms));
    let e = mdlmol2000::parse("t\n\n\n1 -2\n", "m", &table).unwrap_err();
    assert_eq!((e.line, e.kind), (4, ErrorKind::NegativeBondCount));
    let e = mdlmol2000::parse("t\n\n\n1 0\n0.0 0.0 0.0\n", "m", &table).unwrap_err();
    assert_eq!((e.line, e.kind), (5, ErrorKind::InvalidAtomCard));
    let e = mdlmol2000::parse("t\n\n\n1 0\n0.0 0.0 0.0 Qq\n", "m", &table).unwrap_err();
    assert_eq!((e.line, e.kind), (5, ErrorKind::UnknownElement));
    let e = mdlmol2000::parse("t\n\n\n1 0\nzz 0.0 0.0 O\n", "m", &table).unwrap_err();
    assert_eq!((e.line, e.kind), (5, ErrorKind::InvalidCoordinate));
    // Content that ends mid-table is not an error: the block is dropped.
    let node = mdlmol2000::parse("t\n\n\n2 0\n0.0 0.0 0.0 O\n", "m", &table).unwrap();
    assert_eq!(node.children.len(), 0);
}

#[test]
fn unex_older_layout_groups_by_molecule_name() {
    let table = small_table();
    let marker = "> Cartesian coordinates of all atoms (Angstroms) in";
    let content = format!(
        "UNEX 1.12-3-abc\nWater {m} file\nh1\nh2\nh3\n1 O 8 w 0.0 0.0 0.0\nbad row skipped\n--\nAmmonia {m} file\nh1\nh2\nh3\n1 N 7 w 1.0 1.0 1.0\n--\nWater {m} file\nh1\nh2\nh3\n1 O 8 w 2.0 2.0 2.0\n--\n",
        m = marker,
    );
    assert!(unex::test(&content));
    let node = unex::parse(&content, "u.out", &table).unwrap();
    assert_eq!(node.kind, "mircmd:chemistry:unex");
    assert_eq!(node.children.len(), 2);
    assert_eq!(node.children[0].name, "Water");
    assert_eq!(node.children[1].name, "Ammonia");
    assert_eq!(node.children[0].children.len(), 2);
    assert_eq!(node.children[0].children[0].name, "Set#1");
    assert_eq!(node.children[0].children[1].name, "Set#2");
    assert_eq!(node.children[1].children.len(), 1);
    // The malformed row was dropped without an error.
    let w1 = decode_coords(&node.children[0].children[0].data).unwrap();
    assert_eq!(w1.atomic_num, vec![8]);
}

#[test]
fn unex_newer_layout_reads_the_interchange_rows() {
    let table = small_table();
    let content = "UNEX 2.1-0-ab\nCartesian coordinates (Angstroms) of atoms in water frame\nFormat: MOL\n--\nskip1\nskip2\nO 0.0 0.0 0.0\nX 1.0 1.0 1.0\n--\n";
    let node = unex::parse(content, "u.out", &table).unwrap();
    assert_eq!(node.children.len(), 1);
    assert_eq!(node.children[0].name, "water");
    let coords = decode_coords(&node.children[0].children[0].data).unwrap();
    assert_eq!(coords.atomic_num, vec![8, -1]);
}

#[test]
fn unex_error_kinds() {
    let table = small_table();
    let e = unex::parse("not unex\n", "u", &table).unwrap_err();
    assert_eq!((e.line, e.kind), (1, ErrorKind::InvalidVersion));
    let bad_fmt = "UNEX 2.0-0-a\nCartesian coordinates (Angstroms) of atoms in x frame\nFormat: FOO\n--\n";
    let e = unex::parse(bad_fmt, "u", &table).unwrap_err();
    assert_eq!((e.line, e.kind), (3, ErrorKind::UnknownSubFormat));
    let bad_sym = "UNEX 2.0-0-a\nCartesian coordinates (Angstroms) of atoms in x frame\nFormat: MOL\n--\ns1\ns2\nQq 0.0 0.0 0.0\n--\n";
    let e = unex::parse(bad_sym, "u", &table).unwrap_err();
    assert_eq!((e.line, e.kind), (7, ErrorKind::UnknownElement));
    let bad_coord = "UNEX 2.0-0-a\nCartesian coordinates (Angstroms) of atoms in x frame\nFormat: MOL\n--\ns1\ns2\nO zz 0.0 0.0\n--\n";
    let e = unex::parse(bad_coord, "u", &table).unwrap_err();
    assert_eq!((e.line, e.kind), (7, ErrorKind::InvalidCoordinate));
}

#[test]
fn carriage_returns_are_part_of_the_line_ending() {
    let table = small_table();
    let content = "1\r\nsalt water\r\nO 0.0 0.0 0.0\r\n";
    let node = xyz::parse(content, "t.xyz", &table).unwrap();
    assert_eq!(node.children[0].name, "salt water");
}

#[test]
fn number_grammar_accepts_the_documented_shapes() {
    let table = small_table();
    let content = "1\nshapes\nO .5 1E+2 -3.25e-1\n";
    let node = xyz::parse(content, "t.xyz", &table).unwrap();
    let coords = decode_coords(&node.children[0].data).unwrap();
    assert_eq!(real_to_f64(&coords.x[0]), 0.5);
    assert_eq!(real_to_f64(&coords.y[0]), 100.0);
    assert_eq!(real_to_f64(&coords.z[0]), -0.325);
}

#[test]
fn cfour_without_markers_yields_no_sets() {
    let node = cfour::parse("just text\n", "c.log").unwrap();
    assert_eq!(node.children.len(), 0);
    assert_eq!(node.name, "c.log");
}

#[test]
fn unex_newer_layout_without_a_declared_sub_format_keeps_an_empty_set() {
    let table = small_table();
    let content = "UNEX 2.0-0-a\nCartesian coordinates (Angstroms) of atoms in x frame\nheader text\n--\n1 a 8 q 0.0 0.0 0.0\n--\n";
    let node = unex::parse(content, "u.out", &table).unwrap();
    assert_eq!(node.children.len(), 1);
    let coords = decode_coords(&node.children[0].children[0].data).unwrap();
    assert_eq!(coords.atomic_num.len(), 0);
}

#[test]
fn table_lookups_resolve_both_ways() {
    let table = small_table();
    assert_eq!(table.symbol_to_atomic_number("O"), Some(8));
    assert_eq!(table.symbol_to_atomic_number("Zz"), None);
    assert_eq!(table.atomic_number_to_symbol(7), Some(String::from("N")));
    assert_eq!(table.atomic_number_to_symbol(99), None);
}

#[test]
fn picking_ids_wrap_and_encode() {
    let mut counter: u32 = 0;
    assert_eq!(next_id(&mut counter), 0);
    assert_eq!(next_id(&mut counter), 1);
    counter = MAX_ID;
    assert_eq!(next_id(&mut counter), MAX_ID);
    assert_eq!(counter, 0);
    let c = id_to_color(0x01_02_03);
    assert_eq!(c, Color { r: 1, g: 2, b: 3, a: 255 });
}

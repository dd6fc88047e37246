//! Whole-pipeline behaviors: the documented laws on concrete inputs.

use chem_files_importer::codec::{decode_coords, decode_cube, decode_molecule, encode_coords};
use chem_files_importer::decimal::{bohr_to_angstrom, Real};
use chem_files_importer::dispatch::{load, Attempt, AttemptOutcome};
use chem_files_importer::errors::ErrorKind;
use chem_files_importer::model::AtomicCoordinates;
use chem_files_importer::parsers::{cube, unex, xyz};
use chem_files_importer::table::PeriodicTable;
use chem_files_importer::text::to_chars;

fn small_table() -> PeriodicTable {
    let mut t = PeriodicTable::new();
    t.push_element(String::from("H"), 1);
    t.push_element(String::from("C"), 6);
    t.push_element(String::from("O"), 8);
    t
}

fn real_to_f64(r: &Real) -> f64 {
    let sign = if r.neg { -1.0 } else { 1.0 };
    sign * (r.mant as f64) * 10f64.powi(r.exp as i32)
}

#[test]
fn xyz_well_formed_block_has_equal_lengths() {
    let table = small_table();
    let content = "3\nmethane fragment\nC 0.0 0.0 0.0\nH 0.63 0.63 0.63\nH -0.63 -0.63 0.63\n";
    let node = xyz::parse(content, "a.xyz", &table).unwrap();
    assert_eq!(node.children.len(), 1);
    let coords = decode_coords(&node.children[0].data).unwrap();
    assert_eq!(coords.atomic_num.len(), 3);
    assert_eq!(coords.x.len(), 3);
    assert_eq!(coords.y.len(), 3);
    assert_eq!(coords.z.len(), 3);
}

#[test]
fn cube_size_mismatch_is_an_error() {
    // Grid of 2 x 2 x 2 points, but only seven values follow.
    let content = "c1\nc2\n1 0.0 0.0 0.0\n2 1.0 0.0 0.0\n2 0.0 1.0 0.0\n2 0.0 0.0 1.0\n6 6.0 0.0 0.0 0.0\n1.0 2.0 3.0 4.0\n5.0 6.0 7.0\n";
    let err = cube::parse(content, "a.cube").unwrap_err();
    match err.kind {
        ErrorKind::VolumeSizeMismatch { expected, found } => {
            assert_eq!(expected, 8);
            assert_eq!(found, 7);
        },
        other => panic!("wrong error kind: {:?}", other),
    }
}

#[test]
fn coords_round_trip_exactly() {
    let mut c = AtomicCoordinates::new();
    c.push_atom(8, Real { neg: false, mant: 123, exp: -2 }, Real { neg: true, mant: 0, exp: 0 }, Real { neg: false, mant: 96, exp: -2 });
    c.push_atom(-1, Real { neg: true, mant: 5, exp: 30 }, Real { neg: false, mant: 1, exp: -40 }, Real { neg: false, mant: 0, exp: 0 });
    let bytes = encode_coords(&c);
    let back = decode_coords(&bytes).unwrap();
    assert_eq!(back.atomic_num, c.atomic_num);
    assert_eq!(back.x, c.x);
    assert_eq!(back.y, c.y);
    assert_eq!(back.z, c.z);
}

#[test]
fn decode_rejects_trailing_bytes() {
    let mut c = AtomicCoordinates::new();
    c.push_atom(1, Real { neg: false, mant: 1, exp: 0 }, Real { neg: false, mant: 2, exp: 0 }, Real { neg: false, mant: 3, exp: 0 });
    let mut bytes = encode_coords(&c);
    for _ in 0..16 {
        bytes.push(0);
    }
    assert!(decode_coords(&bytes).is_none());
    bytes.pop();
    assert!(decode_coords(&bytes).is_none());
}

#[test]
fn recognizers_are_idempotent() {
    let samples = [
        "2\nwater\nO 0.0 0.0 0.0\nH 0.0 0.0 0.96\n",
        "UNEX 1.12-3-abc\n",
        "not a molecule file at all",
        "",
    ];
    for content in samples.iter() {
        assert_eq!(xyz::test(content), xyz::test(content));
        assert_eq!(cube::test(content), cube::test(content));
        assert_eq!(unex::test(content), unex::test(content));
    }
}

#[test]
fn unex_version_decoding() {
    let v1 = unex::get_format_version(&to_chars("UNEX 1.12-3-abc")).unwrap();
    assert_eq!(v1, 1_120_003);
    let v2 = unex::get_format_version(&to_chars("UNEX 2.0-0-x")).unwrap();
    assert_eq!(v2, 2_000_000);
    assert!(unex::get_format_version(&to_chars("UNEX 1.2-3")).is_none());
    assert!(unex::get_format_version(&to_chars("GAUSSIAN 1.2-3-a")).is_none());
}

#[test]
fn unex_version_boundary_selects_newer_layout() {
    // At exactly 2.0-0 the newer layout must be chosen: the molecule name
    // comes from the seventh field of the marker line, not from the text
    // before a marker as the older layout has it.
    let table = small_table();
    let content = "UNEX 2.0-0-x\nCartesian coordinates (Angstroms) of atoms in benzene frame\nFormat: UNEX\n--\nhdr\n--\n1 a 8 q 0.0 0.0 0.0\n--\n";
    let node = unex::parse(content, "u.out", &table).unwrap();
    assert_eq!(node.children.len(), 1);
    assert_eq!(node.children[0].name, "benzene");
}

#[test]
fn cube_bohr_conversion() {
    let content = "c1\nc2\n1 0.0 0.0 0.0\n1 1.0 0.0 0.0\n1 0.0 1.0 0.0\n1 0.0 0.0 1.0\n6 6.0 1.0 0.0 0.0\n9.25\n";
    let node = cube::parse(content, "a.cube").unwrap();
    let coords = decode_coords(&node.children[0].data).unwrap();
    let x = real_to_f64(&coords.x[0]);
    assert!((x - 0.529177210903).abs() < 1e-12);
    assert_eq!(real_to_f64(&coords.y[0]), 0.0);
}

#[test]
fn bohr_factor_is_exact() {
    let one = Real { neg: false, mant: 10, exp: -1 };
    let a = bohr_to_angstrom(one);
    assert_eq!(a.mant, 5_291_772_109_030);
    assert_eq!(a.exp, -13);
    assert!(!a.neg);
}

#[test]
fn dispatcher_names_every_format_when_nothing_matches() {
    let table = small_table();
    let attempts: Vec<Attempt> = load("complete garbage", "g.txt", &table).unwrap_err();
    let names: Vec<&str> = attempts.iter().map(|a| a.format.as_str()).collect();
    assert_eq!(names, vec!["XYZ", "Gaussian Cube", "UNEX", "Cfour", "MDL Mol V2000"]);
    for a in attempts.iter() {
        assert_eq!(a.outcome, AttemptOutcome::NotRecognized);
    }
}

#[test]
fn dispatcher_reports_the_failing_format_reason() {
    let table = small_table();
    // Passes the XYZ recognizer (the bound covers both cards) but fails to
    // parse: the second element symbol is not in the table.
    let content = "2\ncomment\nO 0.0 0.0 0.0\nXx 0.0 0.0 0.0\n";
    let attempts = load(content, "g.xyz", &table).unwrap_err();
    assert_eq!(attempts.len(), 5);
    assert_eq!(attempts[0].format, "XYZ");
    match attempts[0].outcome {
        AttemptOutcome::Failed(e) => {
            assert_eq!(e.line, 4);
            assert_eq!(e.kind, ErrorKind::UnknownElement);
        },
        AttemptOutcome::NotRecognized => panic!("the XYZ recognizer must accept this content"),
    }
    for a in attempts.iter().skip(1) {
        assert_eq!(a.outcome, AttemptOutcome::NotRecognized);
    }
}

#[test]
fn dispatcher_falls_through_to_a_later_format() {
    let table = small_table();
    // The XYZ recognizer accepts this content but its parser rejects the
    // unknown symbol; the dispatcher must go on and let the MDL format,
    // whose tag stands on the fourth line, parse it.
    let content = "1\nx\nQq 0.0 0.0 0.0\n1 0 V2000\n0.0 0.0 0.0 O\n";
    let node = load(content, "both.mol", &table).unwrap();
    assert_eq!(node.kind, "mircmd:chemistry:molecule");
    assert_eq!(node.children.len(), 1);
    assert_eq!(node.children[0].name, "1");
    let coords = decode_coords(&node.children[0].data).unwrap();
    assert_eq!(coords.atomic_num, vec![8]);
}

#[test]
fn xyz_water_scenario() {
    let table = small_table();
    let node = load("2\nwater\nO 0.0 0.0 0.0\nH 0.0 0.0 0.96\n", "water.xyz", &table).unwrap();
    assert_eq!(node.kind, "mircmd:chemistry:molecule");
    assert_eq!(node.children.len(), 1);
    let child = &node.children[0];
    assert_eq!(child.name, "water");
    assert_eq!(child.kind, "mircmd:chemistry:atomic_coordinates");
    let coords = decode_coords(&child.data).unwrap();
    assert_eq!(coords.atomic_num, vec![8, 1]);
    assert_eq!(real_to_f64(&coords.z[1]), 0.96);
    let mol = decode_molecule(&node.data).unwrap();
    assert_eq!(mol.n_atoms, 2);
    assert_eq!(mol.atomic_num, vec![8, 1]);
    assert_eq!(mol.name, "water.xyz");
}

#[test]
fn cube_round_trips_through_its_payload() {
    let content = "first comment\nsecond comment\n-1 0.5 0.0 0.0\n2 1.0 0.0 0.0\n1 0.0 1.0 0.0\n2 0.0 0.0 1.0\n8 8.0 0.0 0.0 0.0\n1\n0.25 0.5 -0.75 1e2\n";
    let node = cube::parse(content, "b.cube").unwrap();
    let cube_rec = decode_cube(&node.data).unwrap();
    assert_eq!(cube_rec.comment1, "first comment");
    assert_eq!(cube_rec.comment2, "second comment");
    assert_eq!(cube_rec.steps_number, vec![2, 1, 2]);
    assert_eq!(cube_rec.cube_data.len(), 2);
    assert_eq!(cube_rec.cube_data[0].len(), 1);
    assert_eq!(cube_rec.cube_data[0][0].len(), 2);
    assert_eq!(real_to_f64(&cube_rec.cube_data[1][0][1]), 100.0);
    assert_eq!(real_to_f64(&cube_rec.box_origin[0]), 0.5);
}

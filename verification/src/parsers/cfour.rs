//! Cfour log files: free text with marked coordinate tables in bohr. Every
//! marked table becomes one numbered coordinate set; rows that do not fit
//! are skipped, as the log format allows stray text.

use vstd::prelude::*;
use vstd::string::*;
use crate::codec::{encode_coords, encode_molecule, spec_dec_coords, spec_dec_molecule};
use crate::decimal::{
    bohr_to_angstrom, parse_real, real_of, spec_parse_real, spec_to_angstrom, Real,
};
use crate::errors::ParseError;
use crate::model::{AtomicCoordinates, CoordsVal, Molecule, MoleculeVal, Node};
use crate::text::{
    contains, digits_string, parse_i32, spec_contains, spec_digits, spec_lines,
    spec_parse_i32, spec_tokens, split_lines, str_eq_chars, to_chars, tokens,
};

verus! {

/// The banner line every Cfour log carries near its top.
pub open spec fn spec_signature() -> Seq<char> {
    "<<<     CCCCCC     CCCCCC   |||     CCCCCC     CCCCCC   >>>"@
}

/// The line that announces a coordinate table.
pub open spec fn spec_marker() -> Seq<char> {
    "Z-matrix   Atomic            Coordinates (in bohr)"@
}

/// How many lines the recognizer may inspect.
pub open spec fn validation_bound() -> int {
    20
}

/// What the recognizer accepts: the banner occurs on some line after the first,
/// within the bound.
pub open spec fn spec_test(content: Seq<char>) -> bool {
    let lines = spec_lines(content);
    exists|k: int|
        1 <= k < validation_bound() && k < lines.len() && spec_contains(
            #[trigger] lines[k],
            spec_signature(),
        )
}

/// Recognizes a Cfour log by its banner.
pub fn test(content: &str) -> (r: bool)
    ensures
        r == spec_test(content@),
{
    let cs = to_chars(content);
    let lines = split_lines(cs.as_slice());
    let ghost ld = lines.deep_view();
    let sig = to_chars("<<<     CCCCCC     CCCCCC   |||     CCCCCC     CCCCCC   >>>");
    let nlines = lines.len();
    let mut k: usize = 1;
    while k < 20 && k < nlines
        invariant
            1 <= k,
            nlines == ld.len(),
            lines.deep_view() == ld,
            ld == spec_lines(content@),
            sig@ == spec_signature(),
            forall|p: int|
                1 <= p < k && p < ld.len() ==> !spec_contains(#[trigger] ld[p], spec_signature()),
        decreases 20 - k,
    {
        proof {
            assert(ld[k as int] == lines@[k as int]@);
        }
        if contains(lines[k].as_slice(), sig.as_slice()) {
            return true;
        }
        k += 1;
    }
    false
}

/// One table row: five or more fields, the atomic number in the second,
/// coordinates in bohr in the next three; zero and unreadable numbers stand
/// for a dummy atom, unreadable coordinates for zero.
pub open spec fn spec_row_num(toks: Seq<Seq<char>>) -> i32 {
    if toks[1] == seq!['0'] {
        (-1) as i32
    } else {
        match spec_parse_i32(toks[1]) {
            Some(v) => v as i32,
            None => (-1) as i32,
        }
    }
}

pub open spec fn spec_row_coord(t: Seq<char>) -> Real {
    match spec_parse_real(t) {
        Some(v) => spec_to_angstrom(real_of(v)),
        None => spec_to_angstrom(Real { neg: false, mant: 0, exp: 0 }),
    }
}

/// Reads table rows until a delimiter line or the end of the content;
/// returns the block and the next line to scan.
pub open spec fn spec_rows(lines: Seq<Seq<char>>, i: int, acc: CoordsVal) -> (CoordsVal, int)
    decreases lines.len() - i,
    when 0 <= i
{
    if i >= lines.len() {
        (acc, i)
    } else if spec_contains(lines[i], "--"@) {
        (acc, i + 1)
    } else {
        let toks = spec_tokens(lines[i]);
        if toks.len() >= 5 {
            spec_rows(
                lines,
                i + 1,
                acc.push(
                    spec_row_num(toks),
                    spec_row_coord(toks[2]),
                    spec_row_coord(toks[3]),
                    spec_row_coord(toks[4]),
                ),
            )
        } else {
            spec_rows(lines, i + 1, acc)
        }
    }
}

pub proof fn lemma_rows_next(lines: Seq<Seq<char>>, i: int, acc: CoordsVal)
    requires
        0 <= i <= lines.len(),
    ensures
        spec_rows(lines, i, acc).1 >= i,
        spec_rows(lines, i, acc).1 <= lines.len() + 1,
    decreases lines.len() - i,
{
    if i < lines.len() && !spec_contains(lines[i], "--"@) {
        let toks = spec_tokens(lines[i]);
        if toks.len() >= 5 {
            lemma_rows_next(
                lines,
                i + 1,
                acc.push(
                    spec_row_num(toks),
                    spec_row_coord(toks[2]),
                    spec_row_coord(toks[3]),
                    spec_row_coord(toks[4]),
                ),
            );
        } else {
            lemma_rows_next(lines, i + 1, acc);
        }
    }
}

/// Walks the log from line `i`, collecting one block per marker line.
pub open spec fn spec_scan(lines: Seq<Seq<char>>, i: int, acc: Seq<CoordsVal>) -> Seq<CoordsVal>
    decreases lines.len() - i,
    when 0 <= i
    via spec_scan_dec
{
    if i >= lines.len() {
        acc
    } else if spec_contains(lines[i], spec_marker()) {
        let start = if i + 3 <= lines.len() {
            i + 3
        } else {
            lines.len() as int
        };
        let rowsr = spec_rows(lines, start, CoordsVal::empty());
        let ni = if rowsr.1 <= lines.len() {
            rowsr.1
        } else {
            lines.len() as int
        };
        if ni > i {
            spec_scan(lines, ni, acc.push(rowsr.0))
        } else {
            acc
        }
    } else {
        spec_scan(lines, i + 1, acc)
    }
}

#[via_fn]
proof fn spec_scan_dec(lines: Seq<Seq<char>>, i: int, acc: Seq<CoordsVal>) {
    if 0 <= i < lines.len() && spec_contains(lines[i], spec_marker()) {
        let start = if i + 3 <= lines.len() {
            i + 3
        } else {
            lines.len() as int
        };
        lemma_rows_next(lines, start, CoordsVal::empty());
    }
}

/// The coordinate blocks the whole content yields, in order.
pub open spec fn spec_parse(content: Seq<char>) -> Seq<CoordsVal> {
    spec_scan(spec_lines(content), 0, seq![])
}

/// The numbered coordinate node of one block.
pub open spec fn child_matches_block(c: Node, coords: CoordsVal, k: int) -> bool {
    &&& c.name@ == "Set#"@ + spec_digits(k + 1)
    &&& c.kind@ == "mircmd:chemistry:atomic_coordinates"@
    &&& spec_dec_coords(c.data@) == Some(coords)
    &&& coords.wf()
    &&& c.children.len() == 0
}

/// The root molecule node: an empty summary and one child per block.
pub open spec fn spec_node_matches(n: Node, fname: Seq<char>, blocks: Seq<CoordsVal>) -> bool {
    &&& n.name@ == fname
    &&& n.kind@ == "mircmd:chemistry:molecule"@
    &&& spec_dec_molecule(n.data@) == Some(
        MoleculeVal { n_atoms: 0, nums: seq![], charge: 0, name: fname },
    )
    &&& n.children.len() == blocks.len()
    &&& forall|k: int|
        0 <= k < blocks.len() ==> child_matches_block(#[trigger] n.children[k], blocks[k], k)
}

/// Parses a Cfour log into a molecule node with one numbered coordinate
/// child per marked table. This format never fails structurally.
#[verifier::rlimit(100)]
pub fn parse(content: &str, file_name: &str) -> (r: Result<Node, ParseError>)
    ensures
        r is Ok,
        r matches Ok(node) ==> spec_node_matches(node, file_name@, spec_parse(content@)),
{
    let cs = to_chars(content);
    let lines = split_lines(cs.as_slice());
    let ghost ld = lines.deep_view();
    let nlines = lines.len();
    let marker = to_chars("Z-matrix   Atomic            Coordinates (in bohr)");
    let dashes = to_chars("--");
    let mut children: Vec<Node> = Vec::new();
    let ghost mut gacc: Seq<CoordsVal> = seq![];
    let mut i: usize = 0;
    proof {
        assert(nlines == ld.len());
    }
    while i < nlines
        invariant
            i <= nlines,
            nlines == ld.len(),
            lines.deep_view() == ld,
            ld == spec_lines(content@),
            marker@ == spec_marker(),
            dashes@ == "--"@,
            spec_parse(content@) == spec_scan(ld, i as int, gacc),
            children@.len() == gacc.len(),
            gacc.len() <= i,
            forall|k: int|
                0 <= k < gacc.len() ==> child_matches_block(#[trigger] children@[k], gacc[k], k),
        decreases nlines - i,
    {
        proof {
            assert(ld[i as int] == lines@[i as int]@);
        }
        if contains(lines[i].as_slice(), marker.as_slice()) {
            let mut coords = AtomicCoordinates::new();
            let j0: usize = if nlines - i > 3 {
                i + 3
            } else {
                nlines
            };
            let mut j = j0;
            let ghost grows = spec_rows(ld, j0 as int, CoordsVal::empty());
            proof {
                lemma_rows_next(ld, j0 as int, CoordsVal::empty());
            }
            let mut ended = false;
            while j < nlines && !ended
                invariant
                    j <= nlines,
                    nlines == ld.len(),
                    lines.deep_view() == ld,
                    dashes@ == "--"@,
                    grows == spec_rows(ld, j0 as int, CoordsVal::empty()),
                    coords@.wf(),
                    !ended ==> grows == spec_rows(ld, j as int, coords@),
                    ended ==> grows == (coords@, j as int),
                    ended ==> j <= nlines,
                decreases nlines - j + (if ended {
                    0int
                } else {
                    1int
                }),
            {
                proof {
                    assert(ld[j as int] == lines@[j as int]@);
                }
                if contains(lines[j].as_slice(), dashes.as_slice()) {
                    ended = true;
                    j += 1;
                } else {
                    let toks = tokens(lines[j].as_slice());
                    let ghost gtoks = spec_tokens(ld[j as int]);
                    proof {
                        assert(toks.deep_view() == gtoks);
                        assert(toks@.len() == gtoks.len());
                    }
                    if toks.len() >= 5 {
                        proof {
                            assert(toks.deep_view()[1] == toks@[1]@);
                            assert(toks.deep_view()[2] == toks@[2]@);
                            assert(toks.deep_view()[3] == toks@[3]@);
                            assert(toks.deep_view()[4] == toks@[4]@);
                        }
                        let num: i32 = if str_eq_chars("0", toks[1].as_slice()) {
                            -1
                        } else {
                            match parse_i32(toks[1].as_slice()) {
                                Some(v) => v,
                                None => -1,
                            }
                        };
                        proof {
                            assert(num == spec_row_num(gtoks)) by {
                                reveal_strlit("0");
                                assert("0"@ =~= seq!['0']);
                            }
                        }
                        let x = match parse_real(toks[2].as_slice()) {
                            Some(v) => v,
                            None => Real::zero(),
                        };
                        let y = match parse_real(toks[3].as_slice()) {
                            Some(v) => v,
                            None => Real::zero(),
                        };
                        let z = match parse_real(toks[4].as_slice()) {
                            Some(v) => v,
                            None => Real::zero(),
                        };
                        coords.push_atom(
                            num,
                            bohr_to_angstrom(x),
                            bohr_to_angstrom(y),
                            bohr_to_angstrom(z),
                        );
                    }
                    j += 1;
                }
            }
            proof {
                if !ended {
                    assert(grows == (coords@, j as int));
                }
                assert(grows.0 == coords@);
                assert(grows.1 == j as int);
            }
            let _clen = coords.len();
            let data = encode_coords(&coords);
            proof {
                crate::codec::lemma_coords_round_trip(coords@);
            }
            let mut set_name = String::from_str("Set#");
            let digits = digits_string(children.len() + 1);
            set_name.append(digits.as_str());
            let child = Node {
                name: set_name,
                kind: crate::model::kind_atomic_coordinates(),
                data,
                children: Vec::new(),
            };
            children.push(child);
            proof {
                gacc = gacc.push(coords@);
                assert(children@.len() == gacc.len());
                assert(child_matches_block(children@[gacc.len() - 1], gacc[gacc.len() - 1], gacc.len() - 1));
            }
            i = j;
        } else {
            i += 1;
        }
    }
    proof {
        assert(spec_parse(content@) == gacc);
    }
    let mol = Molecule { n_atoms: 0, atomic_num: Vec::new(), charge: 0, name: file_name.to_owned() };
    let _flen = file_name.unicode_len();
    proof {
        assert(mol@.nums =~= Seq::<i32>::empty());
    }
    let data = encode_molecule(&mol);
    proof {
        crate::codec::lemma_molecule_round_trip(mol@);
    }
    let node = Node {
        name: file_name.to_owned(),
        kind: crate::model::kind_molecule(),
        data,
        children,
    };
    Ok(node)
}

} // verus!

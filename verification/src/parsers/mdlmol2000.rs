//! The MDL Mol V2000 format: a three-line header, a control line with the
//! atom and bond counts, then that many atom cards. The bonds section is
//! never read.

use vstd::prelude::*;
use vstd::string::*;
use crate::codec::{encode_coords, encode_molecule, spec_dec_coords, spec_dec_molecule};
use crate::decimal::{parse_real, real_of, spec_parse_real};
use crate::errors::{ErrorKind, ParseError};
use crate::model::{AtomicCoordinates, CoordsVal, Molecule, MoleculeVal, Node};
use crate::table::{spec_lookup, PeriodicTable};
use crate::text::{
    chars_to_string, contains, parse_i32, parse_usize, spec_contains, spec_lines, spec_parse_i32,
    spec_parse_uint, spec_tokens, spec_trim, split_lines, to_chars, tokens, trim,
};

verus! {

/// What the recognizer accepts: at least four lines, and the fourth carries
/// the version token.
pub open spec fn spec_test(content: Seq<char>) -> bool {
    let lines = spec_lines(content);
    lines.len() >= 4 && spec_contains(lines[3], " V2000"@)
}

/// Recognizes MDL Mol V2000 content by its fourth line.
pub fn test(content: &str) -> (r: bool)
    ensures
        r == spec_test(content@),
{
    let cs = to_chars(content);
    let lines = split_lines(cs.as_slice());
    let ghost ld = lines.deep_view();
    if lines.len() < 4 {
        return false;
    }
    proof {
        assert(ld[3] == lines@[3]@);
    }
    let tag = to_chars(" V2000");
    contains(lines[3].as_slice(), tag.as_slice())
}

/// The molecule title: the first of the three header lines that is not
/// blank after trimming, or nothing.
pub open spec fn spec_title(lines: Seq<Seq<char>>) -> Seq<char> {
    if lines.len() > 0 && spec_trim(lines[0]).len() > 0 {
        spec_trim(lines[0])
    } else if lines.len() > 1 && spec_trim(lines[1]).len() > 0 {
        spec_trim(lines[1])
    } else if lines.len() > 2 && spec_trim(lines[2]).len() > 0 {
        spec_trim(lines[2])
    } else {
        Seq::empty()
    }
}

/// One parsed file: the title and the single coordinate block.
pub ghost struct MdlBlock {
    pub title: Seq<char>,
    pub coords: CoordsVal,
}

/// Reads `n` atom cards from line `i` on: coordinates in the first three
/// fields, the element symbol in the fourth. `Ok(None)` when the content
/// ends first: the unfinished block is dropped without error.
pub open spec fn spec_cards(
    lines: Seq<Seq<char>>,
    i: int,
    n: int,
    acc: CoordsVal,
    tbl: Seq<(String, i32)>,
) -> Result<Option<CoordsVal>, ParseError>
    decreases n,
{
    if n <= 0 {
        Ok(Some(acc))
    } else if i >= lines.len() {
        Ok(None)
    } else {
        let toks = spec_tokens(lines[i]);
        if toks.len() < 4 {
            Err(ParseError { line: (i + 1) as usize, kind: ErrorKind::InvalidAtomCard })
        } else {
            match spec_lookup(tbl, toks[3]) {
                None => Err(ParseError { line: (i + 1) as usize, kind: ErrorKind::UnknownElement }),
                Some(num) => {
                    if spec_parse_real(toks[0]) is Some && spec_parse_real(toks[1]) is Some
                        && spec_parse_real(toks[2]) is Some {
                        spec_cards(
                            lines,
                            i + 1,
                            n - 1,
                            acc.push(
                                num,
                                real_of(spec_parse_real(toks[0])->0),
                                real_of(spec_parse_real(toks[1])->0),
                                real_of(spec_parse_real(toks[2])->0),
                            ),
                            tbl,
                        )
                    } else {
                        Err(
                            ParseError {
                                line: (i + 1) as usize,
                                kind: ErrorKind::InvalidCoordinate,
                            },
                        )
                    }
                },
            }
        }
    }
}

/// What the whole parse yields: the single block, or nothing when the
/// content ends before the control line or mid-table.
pub open spec fn spec_parse(content: Seq<char>, tbl: Seq<(String, i32)>) -> Result<
    Option<MdlBlock>,
    ParseError,
> {
    let lines = spec_lines(content);
    if lines.len() < 4 {
        Ok(None)
    } else {
        let toks = spec_tokens(lines[3]);
        if toks.len() == 0 {
            Err(ParseError { line: 4, kind: ErrorKind::ExpectedAtomCount })
        } else {
            match spec_parse_uint(toks[0], usize::MAX as int) {
                None => Err(ParseError { line: 4, kind: ErrorKind::ExpectedAtomCount }),
                Some(n) => {
                    if toks.len() < 2 {
                        Err(ParseError { line: 4, kind: ErrorKind::ExpectedBondCount })
                    } else {
                        match spec_parse_i32(toks[1]) {
                            None => Err(ParseError { line: 4, kind: ErrorKind::ExpectedBondCount }),
                            Some(nb) => {
                                if n == 0 {
                                    Err(ParseError { line: 4, kind: ErrorKind::ZeroAtoms })
                                } else if nb < 0 {
                                    Err(
                                        ParseError { line: 4, kind: ErrorKind::NegativeBondCount },
                                    )
                                } else {
                                    match spec_cards(lines, 4, n, CoordsVal::empty(), tbl) {
                                        Err(e) => Err(e),
                                        Ok(None) => Ok(None),
                                        Ok(Some(c)) => Ok(
                                            Some(
                                                MdlBlock { title: spec_title(lines), coords: c },
                                            ),
                                        ),
                                    }
                                }
                            },
                        }
                    }
                },
            }
        }
    }
}

/// The root molecule node: an empty summary and, when a block completed,
/// one coordinate child titled from the header or the file name.
pub open spec fn spec_node_matches(n: Node, fname: Seq<char>, block: Option<MdlBlock>) -> bool {
    &&& n.name@ == fname
    &&& n.kind@ == "mircmd:chemistry:molecule"@
    &&& spec_dec_molecule(n.data@) == Some(
        MoleculeVal { n_atoms: 0, nums: seq![], charge: 0, name: fname },
    )
    &&& (match block {
        None => n.children.len() == 0,
        Some(b) => {
            &&& n.children.len() == 1
            &&& n.children[0].name@ == (if b.title.len() == 0 {
                fname
            } else {
                b.title
            })
            &&& n.children[0].kind@ == "mircmd:chemistry:atomic_coordinates"@
            &&& spec_dec_coords(n.children[0].data@) == Some(b.coords)
            &&& b.coords.wf()
            &&& n.children[0].children.len() == 0
        },
    })
}

/// Builds the root node around an optional coordinate child.
fn finish(child: Option<Node>, file_name: &str, Ghost(block): Ghost<Option<MdlBlock>>) -> (r: Node)
    requires
        child is Some <==> block is Some,
        child matches Some(c) ==> block matches Some(b) && {
            &&& c.name@ == (if b.title.len() == 0 {
                file_name@
            } else {
                b.title
            })
            &&& c.kind@ == "mircmd:chemistry:atomic_coordinates"@
            &&& spec_dec_coords(c.data@) == Some(b.coords)
            &&& b.coords.wf()
            &&& c.children.len() == 0
        },
    ensures
        spec_node_matches(r, file_name@, block),
{
    let _flen = file_name.unicode_len();
    let mol = Molecule { n_atoms: 0, atomic_num: Vec::new(), charge: 0, name: file_name.to_owned() };
    proof {
        assert(mol@.nums =~= Seq::<i32>::empty());
    }
    let data = encode_molecule(&mol);
    proof {
        crate::codec::lemma_molecule_round_trip(mol@);
    }
    let mut children: Vec<Node> = Vec::new();
    match child {
        Some(c) => {
            children.push(c);
        },
        None => {},
    }
    Node { name: file_name.to_owned(), kind: crate::model::kind_molecule(), data, children }
}

/// Parses MDL Mol V2000 content into a molecule node with at most one
/// coordinate child.
#[verifier::rlimit(100)]
pub fn parse(content: &str, file_name: &str, table: &PeriodicTable) -> (r: Result<Node, ParseError>)
    ensures
        r is Ok <==> spec_parse(content@, table.entries@) is Ok,
        r matches Err(e) ==> spec_parse(content@, table.entries@) == Result::<
            Option<MdlBlock>,
            ParseError,
        >::Err(e),
        r matches Ok(node) ==> spec_node_matches(
            node,
            file_name@,
            spec_parse(content@, table.entries@)->Ok_0,
        ),
{
    let ghost tbl = table.entries@;
    let cs = to_chars(content);
    let lines = split_lines(cs.as_slice());
    let ghost ld = lines.deep_view();
    let nlines = lines.len();
    proof {
        assert(nlines == ld.len());
    }
    if nlines < 4 {
        return Ok(finish(None, file_name, Ghost(None)));
    }
    proof {
        assert(ld[3] == lines@[3]@);
    }
    let ctoks = tokens(lines[3].as_slice());
    proof {
        assert(ctoks.deep_view().len() == ctoks@.len());
    }
    if ctoks.len() == 0 {
        return Err(ParseError { line: 4, kind: ErrorKind::ExpectedAtomCount });
    }
    proof {
        assert(ctoks.deep_view()[0] == ctoks@[0]@);
    }
    let n = match parse_usize(ctoks[0].as_slice()) {
        Some(v) => v,
        None => {
            return Err(ParseError { line: 4, kind: ErrorKind::ExpectedAtomCount });
        },
    };
    if ctoks.len() < 2 {
        return Err(ParseError { line: 4, kind: ErrorKind::ExpectedBondCount });
    }
    proof {
        assert(ctoks.deep_view()[1] == ctoks@[1]@);
    }
    let nb = match parse_i32(ctoks[1].as_slice()) {
        Some(v) => v,
        None => {
            return Err(ParseError { line: 4, kind: ErrorKind::ExpectedBondCount });
        },
    };
    if n == 0 {
        return Err(ParseError { line: 4, kind: ErrorKind::ZeroAtoms });
    }
    if nb < 0 {
        return Err(ParseError { line: 4, kind: ErrorKind::NegativeBondCount });
    }
    let mut coords = AtomicCoordinates::new();
    let mut k: usize = 0;
    while k < n
        invariant
            k <= n,
            n > 0,
            nlines == ld.len(),
            nlines >= 4,
            lines.deep_view() == ld,
            ld == spec_lines(content@),
            tbl == table.entries@,
            spec_tokens(ld[3]).len() >= 2,
            spec_parse_uint(spec_tokens(ld[3])[0], usize::MAX as int) == Some(n as int),
            spec_parse_i32(spec_tokens(ld[3])[1]) matches Some(bv) && bv >= 0,
            coords@.wf(),
            coords@.nums.len() == k,
            k == 0 || 4 + k <= nlines,
            spec_cards(ld, 4, n as int, CoordsVal::empty(), tbl) == spec_cards(
                ld,
                (4 + k) as int,
                (n - k) as int,
                coords@,
                tbl,
            ),
        decreases n - k,
    {
        if k >= nlines - 4 {
            proof {
                assert(spec_cards(ld, (4 + k) as int, (n - k) as int, coords@, tbl) == Result::<
                    Option<CoordsVal>,
                    ParseError,
                >::Ok(None));
            }
            return Ok(finish(None, file_name, Ghost(None)));
        }
        let cur = 4 + k;
        proof {
            assert(ld[cur as int] == lines@[cur as int]@);
        }
        let toks = tokens(lines[cur].as_slice());
        proof {
            assert(toks.deep_view().len() == toks@.len());
        }
        if toks.len() < 4 {
            return Err(ParseError { line: cur + 1, kind: ErrorKind::InvalidAtomCard });
        }
        proof {
            assert(toks.deep_view()[0] == toks@[0]@);
            assert(toks.deep_view()[1] == toks@[1]@);
            assert(toks.deep_view()[2] == toks@[2]@);
            assert(toks.deep_view()[3] == toks@[3]@);
        }
        let num = match table.lookup_chars(toks[3].as_slice()) {
            Some(v) => v,
            None => {
                return Err(ParseError { line: cur + 1, kind: ErrorKind::UnknownElement });
            },
        };
        let x = match parse_real(toks[0].as_slice()) {
            Some(v) => v,
            None => {
                return Err(ParseError { line: cur + 1, kind: ErrorKind::InvalidCoordinate });
            },
        };
        let y = match parse_real(toks[1].as_slice()) {
            Some(v) => v,
            None => {
                return Err(ParseError { line: cur + 1, kind: ErrorKind::InvalidCoordinate });
            },
        };
        let z = match parse_real(toks[2].as_slice()) {
            Some(v) => v,
            None => {
                return Err(ParseError { line: cur + 1, kind: ErrorKind::InvalidCoordinate });
            },
        };
        coords.push_atom(num, x, y, z);
        k += 1;
    }
    proof {
        assert(spec_cards(ld, 4, n as int, CoordsVal::empty(), tbl) == Result::<
            Option<CoordsVal>,
            ParseError,
        >::Ok(Some(coords@)));
    }
    proof {
        assert(ld[0] == lines@[0]@);
        assert(ld[1] == lines@[1]@);
        assert(ld[2] == lines@[2]@);
    }
    let t0 = trim(lines[0].as_slice());
    let t1 = trim(lines[1].as_slice());
    let t2 = trim(lines[2].as_slice());
    let title: String = if t0.len() > 0 {
        chars_to_string(t0.as_slice())
    } else if t1.len() > 0 {
        chars_to_string(t1.as_slice())
    } else if t2.len() > 0 {
        chars_to_string(t2.as_slice())
    } else {
        chars_to_string(to_chars(file_name).as_slice())
    };
    proof {
        assert(title@ == (if spec_title(ld).len() == 0 {
            file_name@
        } else {
            spec_title(ld)
        }));
    }
    let _clen = coords.len();
    let data = encode_coords(&coords);
    proof {
        crate::codec::lemma_coords_round_trip(coords@);
    }
    let child = Node {
        name: title,
        kind: crate::model::kind_atomic_coordinates(),
        data,
        children: Vec::new(),
    };
    let ghost block = MdlBlock { title: spec_title(ld), coords: coords@ };
    Ok(finish(Some(child), file_name, Ghost(Some(block))))
}

} // verus!

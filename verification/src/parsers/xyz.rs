//! The XYZ format: repeated blocks of a count line, a comment line and that
//! many coordinate cards, supporting multi-geometry trajectory files.

use vstd::prelude::*;
use vstd::string::*;
use crate::codec::{encode_coords, encode_molecule, spec_dec_coords, spec_dec_molecule};
use crate::decimal::{real_of, spec_number_shape, spec_parse_real, parse_real};
use crate::errors::{ErrorKind, ParseError};
use crate::model::{AtomicCoordinates, CoordsVal, Molecule, MoleculeVal, Node};
use crate::table::{spec_lookup, PeriodicTable};
use crate::text::{
    all_digits, chars_to_string, digits_string, is_digit, parse_i32, parse_usize, spec_digits,
    spec_lines, spec_parse_i32, spec_parse_uint, spec_tokens, spec_trim, split_lines, to_chars,
    tokens, trim,
};

verus! {

/// How many lines the recognizer may inspect.
pub open spec fn validation_bound() -> int {
    10
}

/// The element field of a coordinate card: an element symbol (one capital,
/// optionally one small letter) or a run of digits.
pub open spec fn spec_elem_shape(t: Seq<char>) -> bool {
    ||| (t.len() == 1 && 'A' <= t[0] && t[0] <= 'Z')
    ||| (t.len() == 2 && 'A' <= t[0] && t[0] <= 'Z' && 'a' <= t[1] && t[1] <= 'z')
    ||| (t.len() > 0 && all_digits(t))
}

/// A validation card: the element field and exactly three numeric fields.
pub open spec fn spec_card_shape(l: Seq<char>) -> bool {
    let toks = spec_tokens(l);
    toks.len() == 4 && spec_elem_shape(toks[0]) && spec_number_shape(toks[1]) && spec_number_shape(
        toks[2],
    ) && spec_number_shape(toks[3])
}

/// What the recognizer accepts: the first line is a positive atom count and
/// every available card within the bound fits the card shape.
pub open spec fn spec_test(content: Seq<char>) -> bool {
    let lines = spec_lines(content);
    if lines.len() == 0 {
        false
    } else {
        match spec_parse_uint(spec_trim(lines[0]), usize::MAX as int) {
            None => false,
            Some(numat) => {
                if numat == 0 {
                    false
                } else {
                    forall|k: int|
                        0 <= k < numat && k < validation_bound() - 2 && k + 2 < lines.len()
                            ==> spec_card_shape(spec_trim(#[trigger] lines[k + 2]))
                }
            },
        }
    }
}

/// Whether the token fits the element field of a validation card.
fn elem_shape(t: &[char]) -> (r: bool)
    ensures
        r == spec_elem_shape(t@),
{
    if t.len() == 1 && 'A' <= t[0] && t[0] <= 'Z' {
        return true;
    }
    if t.len() == 2 && 'A' <= t[0] && t[0] <= 'Z' && 'a' <= t[1] && t[1] <= 'z' {
        return true;
    }
    if t.len() == 0 {
        return false;
    }
    let n = t.len();
    let mut i: usize = 0;
    while i < n
        invariant
            i <= n,
            n == t@.len(),
            !(t@.len() == 1 && 'A' <= t@[0] && t@[0] <= 'Z'),
            !(t@.len() == 2 && 'A' <= t@[0] && t@[0] <= 'Z' && 'a' <= t@[1] && t@[1] <= 'z'),
            forall|p: int| 0 <= p < i ==> is_digit(#[trigger] t@[p]),
        decreases n - i,
    {
        if t[i] < '0' || t[i] > '9' {
            proof {
                assert(!(t@.len() > 0 && all_digits(t@))) by {
                    assert(0 <= i < t@.len() && !is_digit(t@[i as int]));
                }
                assert(!(t@.len() == 1 && 'A' <= t@[0] && t@[0] <= 'Z'));
                assert(!(t@.len() == 2 && 'A' <= t@[0] && t@[0] <= 'Z' && 'a' <= t@[1] && t@[1]
                    <= 'z'));
                assert(!spec_elem_shape(t@));
            }
            return false;
        }
        i += 1;
    }
    true
}

/// Whether the trimmed line is a valid validation card.
fn card_shape(l: &[char]) -> (r: bool)
    ensures
        r == spec_card_shape(l@),
{
    let toks = tokens(l);
    if toks.len() != 4 {
        proof {
            assert(toks.deep_view().len() == toks@.len());
        }
        return false;
    }
    proof {
        assert(toks.deep_view()[0] == toks@[0]@);
        assert(toks.deep_view()[1] == toks@[1]@);
        assert(toks.deep_view()[2] == toks@[2]@);
        assert(toks.deep_view()[3] == toks@[3]@);
    }
    elem_shape(toks[0].as_slice()) && crate::decimal::is_number(toks[1].as_slice())
        && crate::decimal::is_number(toks[2].as_slice()) && crate::decimal::is_number(
        toks[3].as_slice(),
    )
}

/// Recognizes XYZ content by its first lines only.
pub fn test(content: &str) -> (r: bool)
    ensures
        r == spec_test(content@),
{
    let cs = to_chars(content);
    let lines = split_lines(cs.as_slice());
    let ghost ld = lines.deep_view();
    let nlines = lines.len();
    proof {
        assert(nlines == ld.len());
    }
    if nlines == 0 {
        return false;
    }
    proof {
        assert(ld[0] == lines@[0]@);
    }
    let first = trim(lines[0].as_slice());
    let numat = match parse_usize(first.as_slice()) {
        Some(n) => n,
        None => {
            return false;
        },
    };
    if numat == 0 {
        return false;
    }
    let mut k: usize = 0;
    while k < numat && k < 8 && k + 2 < nlines
        invariant
            nlines == ld.len(),
            nlines > 0,
            lines.deep_view() == ld,
            ld == spec_lines(content@),
            spec_parse_uint(spec_trim(ld[0]), usize::MAX as int) == Some(numat as int),
            numat > 0,
            forall|p: int|
                0 <= p < k && p < numat && p < validation_bound() - 2 && p + 2 < ld.len()
                    ==> spec_card_shape(spec_trim(#[trigger] ld[p + 2])),
        decreases numat - k,
    {
        proof {
            assert(ld[k + 2 as int] == lines@[k + 2 as int]@);
        }
        let t = trim(lines[k + 2].as_slice());
        if !card_shape(t.as_slice()) {
            proof {
                assert(0 <= k < numat && (k as int) < validation_bound() - 2 && k + 2 < ld.len()
                    && !spec_card_shape(spec_trim(ld[k + 2 as int])));
                assert(!spec_test(content@));
            }
            return false;
        }
        k += 1;
    }
    proof {
        assert(forall|p: int|
            0 <= p < numat && p < validation_bound() - 2 && p + 2 < ld.len() ==> spec_card_shape(
                spec_trim(#[trigger] ld[p + 2]),
            ));
    }
    true
}

/// One parsed coordinate block: its title and its atoms.
pub ghost struct XyzBlock {
    pub title: Seq<char>,
    pub coords: CoordsVal,
}

/// The element field of a card resolved to an atomic number: an integer
/// stands for itself, anything else is looked up in the periodic table.
pub open spec fn spec_resolve_elem(t: Seq<char>, tbl: Seq<(String, i32)>) -> Option<i32> {
    match spec_parse_i32(t) {
        Some(v) => Some(v as i32),
        None => spec_lookup(tbl, t),
    }
}

/// Reads `n` coordinate cards from line `i` on. `Ok(None)` when the content
/// ends first: the unfinished block is dropped without error.
pub open spec fn spec_parse_cards(
    lines: Seq<Seq<char>>,
    i: int,
    n: int,
    acc: CoordsVal,
    tbl: Seq<(String, i32)>,
) -> Result<Option<CoordsVal>, ParseError>
    decreases n,
{
    if n <= 0 {
        Ok(Some(acc))
    } else if i >= lines.len() {
        Ok(None)
    } else {
        let toks = spec_tokens(lines[i]);
        if toks.len() < 4 {
            Err(ParseError { line: (i + 1) as usize, kind: ErrorKind::InvalidAtomCard })
        } else {
            match spec_resolve_elem(toks[0], tbl) {
                None => Err(ParseError { line: (i + 1) as usize, kind: ErrorKind::UnknownElement }),
                Some(num) => {
                    if spec_parse_real(toks[1]) is Some && spec_parse_real(toks[2]) is Some
                        && spec_parse_real(toks[3]) is Some {
                        spec_parse_cards(
                            lines,
                            i + 1,
                            n - 1,
                            acc.push(
                                num,
                                real_of(spec_parse_real(toks[1])->0),
                                real_of(spec_parse_real(toks[2])->0),
                                real_of(spec_parse_real(toks[3])->0),
                            ),
                            tbl,
                        )
                    } else {
                        Err(
                            ParseError {
                                line: (i + 1) as usize,
                                kind: ErrorKind::InvalidCoordinate,
                            },
                        )
                    }
                },
            }
        }
    }
}

/// The default title of a block whose comment line is blank.
pub open spec fn spec_default_title(comment_line: int) -> Seq<char> {
    "Set@line="@ + spec_digits(comment_line)
}

/// Walks the content block by block from line `i`. A blank line or the end
/// of the content in count position ends the walk; a block cut short by the
/// end of the content is dropped without error.
pub open spec fn spec_parse_blocks(
    lines: Seq<Seq<char>>,
    i: int,
    acc: Seq<XyzBlock>,
    tbl: Seq<(String, i32)>,
) -> Result<Seq<XyzBlock>, ParseError>
    decreases lines.len() - i,
    when 0 <= i
    via spec_parse_blocks_dec
{
    if i >= lines.len() {
        Ok(acc)
    } else {
        let t = spec_trim(lines[i]);
        if t.len() == 0 {
            Ok(acc)
        } else {
            match spec_parse_uint(t, usize::MAX as int) {
                None => Err(ParseError { line: (i + 1) as usize, kind: ErrorKind::ExpectedAtomCount }),
                Some(n) => {
                    if n == 0 {
                        Err(ParseError { line: (i + 1) as usize, kind: ErrorKind::ZeroAtoms })
                    } else if i + 1 >= lines.len() {
                        Ok(acc)
                    } else {
                        let title0 = spec_trim(lines[i + 1]);
                        let title = if title0.len() == 0 {
                            spec_default_title(i + 1)
                        } else {
                            title0
                        };
                        match spec_parse_cards(lines, i + 2, n, CoordsVal::empty(), tbl) {
                            Err(e) => Err(e),
                            Ok(None) => Ok(acc),
                            Ok(Some(coords)) => {
                                let next = i + 2 + n;
                                let acc2 = acc.push(XyzBlock { title, coords });
                                if next >= lines.len() {
                                    Ok(acc2)
                                } else {
                                    spec_parse_blocks(lines, next, acc2, tbl)
                                }
                            },
                        }
                    }
                },
            }
        }
    }
}

#[via_fn]
proof fn spec_parse_blocks_dec(
    lines: Seq<Seq<char>>,
    i: int,
    acc: Seq<XyzBlock>,
    tbl: Seq<(String, i32)>,
) {
    if 0 <= i < lines.len() {
        let t = spec_trim(lines[i]);
        let d = if t.len() > 0 && t[0] == '+' {
            t.drop_first()
        } else {
            t
        };
        if all_digits(d) {
            crate::text::lemma_digits_val_nonneg(d);
        }
    }
}

/// What the whole parse yields on this content and table.
pub open spec fn spec_parse(content: Seq<char>, tbl: Seq<(String, i32)>) -> Result<
    Seq<XyzBlock>,
    ParseError,
> {
    spec_parse_blocks(spec_lines(content), 0, seq![], tbl)
}

/// The molecule summary the root node carries: the last block's atoms, or
/// an empty record when no block completed.
pub open spec fn spec_mol_val(fname: Seq<char>, blocks: Seq<XyzBlock>) -> MoleculeVal {
    if blocks.len() == 0 {
        MoleculeVal { n_atoms: 0, nums: seq![], charge: 0, name: fname }
    } else {
        MoleculeVal {
            n_atoms: blocks.last().coords.nums.len() as i32,
            nums: blocks.last().coords.nums,
            charge: 0,
            name: fname,
        }
    }
}

/// A coordinate node carrying exactly one parsed block.
pub open spec fn child_matches_block(c: Node, b: XyzBlock) -> bool {
    &&& c.name@ == b.title
    &&& c.kind@ == "mircmd:chemistry:atomic_coordinates"@
    &&& spec_dec_coords(c.data@) == Some(b.coords)
    &&& b.coords.wf()
    &&& c.children.len() == 0
}

/// The root molecule node carrying all parsed blocks in order.
pub open spec fn spec_node_matches(n: Node, fname: Seq<char>, blocks: Seq<XyzBlock>) -> bool {
    &&& n.name@ == fname
    &&& n.kind@ == "mircmd:chemistry:molecule"@
    &&& spec_dec_molecule(n.data@) == Some(spec_mol_val(fname, blocks))
    &&& n.children.len() == blocks.len()
    &&& forall|i: int|
        0 <= i < blocks.len() ==> child_matches_block(#[trigger] n.children[i], blocks[i])
}

/// A card every parser run accepts: enough fields, a resolvable element and
/// three numeric coordinates.
pub open spec fn spec_card_ok(l: Seq<char>, tbl: Seq<(String, i32)>) -> bool {
    let toks = spec_tokens(l);
    &&& toks.len() >= 4
    &&& spec_resolve_elem(toks[0], tbl) is Some
    &&& spec_parse_real(toks[1]) is Some
    &&& spec_parse_real(toks[2]) is Some
    &&& spec_parse_real(toks[3]) is Some
}

/// Reading `n` acceptable cards succeeds and adds exactly `n` atoms.
pub proof fn lemma_cards_ok(
    lines: Seq<Seq<char>>,
    i: int,
    n: int,
    acc: CoordsVal,
    tbl: Seq<(String, i32)>,
)
    requires
        0 <= i,
        0 <= n,
        i + n <= lines.len(),
        forall|k: int| i <= k < i + n ==> spec_card_ok(#[trigger] lines[k], tbl),
        acc.wf(),
    ensures
        spec_parse_cards(lines, i, n, acc, tbl) matches Ok(c) && c is Some && c->0.wf()
            && c->0.nums.len() == acc.nums.len() + n,
    decreases n,
{
    if n > 0 {
        assert(spec_card_ok(lines[i], tbl));
        let toks = spec_tokens(lines[i]);
        let acc2 = acc.push(
            spec_resolve_elem(toks[0], tbl)->0,
            real_of(spec_parse_real(toks[1])->0),
            real_of(spec_parse_real(toks[2])->0),
            real_of(spec_parse_real(toks[3])->0),
        );
        lemma_cards_ok(lines, i + 1, n - 1, acc2, tbl);
    }
}

/// The law of well-formed single-geometry content: a count line `n`, a
/// comment line and `n` acceptable cards parse to exactly one coordinate
/// block whose four arrays each hold `n` atoms.
pub proof fn lemma_single_block(lines: Seq<Seq<char>>, tbl: Seq<(String, i32)>, n: int)
    requires
        n >= 1,
        lines.len() == 2 + n,
        spec_parse_uint(spec_trim(lines[0]), usize::MAX as int) == Some(n),
        forall|k: int| 2 <= k < lines.len() ==> spec_card_ok(#[trigger] lines[k], tbl),
    ensures
        spec_parse_blocks(lines, 0, seq![], tbl) matches Ok(blocks) && blocks.len() == 1
            && blocks[0].coords.nums.len() == n && blocks[0].coords.xs.len() == n
            && blocks[0].coords.ys.len() == n && blocks[0].coords.zs.len() == n,
{
    assert(spec_trim(lines[0]).len() > 0);
    lemma_cards_ok(lines, 2, n, CoordsVal::empty(), tbl);
    let r = spec_parse_blocks(lines, 0, seq![], tbl);
    let coords = spec_parse_cards(lines, 2, n, CoordsVal::empty(), tbl)->Ok_0->0;
    assert(r == Result::<Seq<XyzBlock>, ParseError>::Ok(
        seq![
            XyzBlock {
                title: if spec_trim(lines[1]).len() == 0 {
                    spec_default_title(1)
                } else {
                    spec_trim(lines[1])
                },
                coords,
            },
        ],
    ));
}

/// Builds the root molecule node from the completed blocks.
fn finish(
    children: Vec<Node>,
    last_nums: Vec<i32>,
    file_name: &str,
    Ghost(gacc): Ghost<Seq<XyzBlock>>,
) -> (r: Node)
    requires
        children@.len() == gacc.len(),
        forall|j: int| 0 <= j < gacc.len() ==> child_matches_block(#[trigger] children@[j], gacc[j]),
        gacc.len() > 0 ==> last_nums@ == gacc.last().coords.nums,
        gacc.len() == 0 ==> last_nums@.len() == 0,
    ensures
        spec_node_matches(r, file_name@, gacc),
{
    let _flen = file_name.unicode_len();
    let nl = last_nums.len();
    let n_atoms_val: i32 = #[verifier::truncate] (nl as i32);
    let mol = Molecule {
        n_atoms: n_atoms_val,
        atomic_num: last_nums,
        charge: 0,
        name: file_name.to_owned(),
    };
    proof {
        assert(mol@.nums =~= spec_mol_val(file_name@, gacc).nums);
        assert(mol@ == spec_mol_val(file_name@, gacc));
    }
    let data = encode_molecule(&mol);
    proof {
        crate::codec::lemma_molecule_round_trip(mol@);
    }
    Node { name: file_name.to_owned(), kind: crate::model::kind_molecule(), data, children }
}

/// Parses XYZ content into a molecule node with one coordinate child per
/// complete block.
#[verifier::rlimit(100)]
pub fn parse(content: &str, file_name: &str, table: &PeriodicTable) -> (r: Result<Node, ParseError>)
    ensures
        r is Ok <==> spec_parse(content@, table.entries@) is Ok,
        r matches Err(e) ==> spec_parse(content@, table.entries@) == Result::<
            Seq<XyzBlock>,
            ParseError,
        >::Err(e),
        r matches Ok(node) ==> spec_node_matches(
            node,
            file_name@,
            spec_parse(content@, table.entries@)->Ok_0,
        ),
{
    let ghost tbl = table.entries@;
    let cs = to_chars(content);
    let lines = split_lines(cs.as_slice());
    let ghost ld = lines.deep_view();
    let nlines = lines.len();
    let mut children: Vec<Node> = Vec::new();
    let ghost mut gacc: Seq<XyzBlock> = seq![];
    let mut last_nums: Vec<i32> = Vec::new();
    let mut i: usize = 0;
    proof {
        assert(nlines == ld.len());
        assert(spec_parse(content@, tbl) == spec_parse_blocks(ld, 0, seq![], tbl));
    }
    while i < nlines
        invariant
            i <= nlines,
            nlines == ld.len(),
            lines.deep_view() == ld,
            ld == spec_lines(content@),
            spec_parse(content@, tbl) == spec_parse_blocks(ld, i as int, gacc, tbl),
            tbl == table.entries@,
            children@.len() == gacc.len(),
            forall|j: int|
                0 <= j < gacc.len() ==> child_matches_block(#[trigger] children@[j], gacc[j]),
            gacc.len() > 0 ==> last_nums@ == gacc.last().coords.nums,
            gacc.len() == 0 ==> last_nums@.len() == 0,
        decreases nlines - i,
    {
        proof {
            assert(ld[i as int] == lines@[i as int]@);
        }
        let t = trim(lines[i].as_slice());
        if t.len() == 0 {
            proof {
                assert(spec_parse_blocks(ld, i as int, gacc, tbl) == Result::<
                    Seq<XyzBlock>,
                    ParseError,
                >::Ok(gacc));
            }
            return Ok(finish(children, last_nums, file_name, Ghost(gacc)));
        }
        let n = match parse_usize(t.as_slice()) {
            Some(n) => n,
            None => {
                return Err(ParseError { line: i + 1, kind: ErrorKind::ExpectedAtomCount });
            },
        };
        if n == 0 {
            return Err(ParseError { line: i + 1, kind: ErrorKind::ZeroAtoms });
        }
        if i + 1 >= nlines {
            proof {
                assert(spec_parse_blocks(ld, i as int, gacc, tbl) == Result::<
                    Seq<XyzBlock>,
                    ParseError,
                >::Ok(gacc));
            }
            return Ok(finish(children, last_nums, file_name, Ghost(gacc)));
        }
        proof {
            assert(ld[i + 1 as int] == lines@[i + 1 as int]@);
        }
        let title_t = trim(lines[i + 1].as_slice());
        let title: String = if title_t.len() == 0 {
            let mut s0 = String::from_str("Set@line=");
            let digits = digits_string(i + 1);
            s0.append(digits.as_str());
            proof {
                assert(s0@ == spec_default_title(i + 1 as int));
            }
            s0
        } else {
            chars_to_string(title_t.as_slice())
        };
        let ghost gtitle = title@;
        let mut coords = AtomicCoordinates::new();
        let mut k: usize = 0;
        while k < n
            invariant
                k <= n,
                n > 0,
                i + 1 < nlines,
                nlines == ld.len(),
                lines.deep_view() == ld,
                ld == spec_lines(content@),
                tbl == table.entries@,
                spec_parse(content@, tbl) == spec_parse_blocks(ld, i as int, gacc, tbl),
                spec_trim(ld[i as int]).len() > 0,
                spec_parse_uint(spec_trim(ld[i as int]), usize::MAX as int) == Some(n as int),
                gtitle == (if spec_trim(ld[i + 1 as int]).len() == 0 {
                    spec_default_title(i + 1 as int)
                } else {
                    spec_trim(ld[i + 1 as int])
                }),
                children@.len() == gacc.len(),
                forall|j: int|
                    0 <= j < gacc.len() ==> child_matches_block(#[trigger] children@[j], gacc[j]),
                gacc.len() > 0 ==> last_nums@ == gacc.last().coords.nums,
                gacc.len() == 0 ==> last_nums@.len() == 0,
                coords@.wf(),
                coords@.nums.len() == k,
                k == 0 || i + 2 + k <= nlines,
                spec_parse_cards(ld, i + 2 as int, n as int, CoordsVal::empty(), tbl)
                    == spec_parse_cards(ld, (i + 2 + k) as int, (n - k) as int, coords@, tbl),
            decreases n - k,
        {
            if k >= nlines - i - 2 {
                proof {
                    assert(spec_parse_cards(ld, (i + 2 + k) as int, (n - k) as int, coords@, tbl)
                        == Result::<Option<CoordsVal>, ParseError>::Ok(None));
                    assert(spec_parse_blocks(ld, i as int, gacc, tbl) == Result::<
                        Seq<XyzBlock>,
                        ParseError,
                    >::Ok(gacc));
                }
                return Ok(finish(children, last_nums, file_name, Ghost(gacc)));
            }
            let cur = i + 2 + k;
            proof {
                assert(ld[cur as int] == lines@[cur as int]@);
            }
            let toks = tokens(lines[cur].as_slice());
            let ghost gtoks = spec_tokens(ld[cur as int]);
            proof {
                assert(toks.deep_view() == gtoks);
                assert(toks@.len() == gtoks.len());
            }
            if toks.len() < 4 {
                return Err(ParseError { line: cur + 1, kind: ErrorKind::InvalidAtomCard });
            }
            proof {
                assert(toks.deep_view()[0] == toks@[0]@);
                assert(toks.deep_view()[1] == toks@[1]@);
                assert(toks.deep_view()[2] == toks@[2]@);
                assert(toks.deep_view()[3] == toks@[3]@);
            }
            let num: i32 = match parse_i32(toks[0].as_slice()) {
                Some(v) => v,
                None => match table.lookup_chars(toks[0].as_slice()) {
                    Some(v) => v,
                    None => {
                        return Err(ParseError { line: cur + 1, kind: ErrorKind::UnknownElement });
                    },
                },
            };
            proof {
                assert(Some(num) == spec_resolve_elem(gtoks[0], tbl));
            }
            let x = match parse_real(toks[1].as_slice()) {
                Some(v) => v,
                None => {
                    return Err(ParseError { line: cur + 1, kind: ErrorKind::InvalidCoordinate });
                },
            };
            let y = match parse_real(toks[2].as_slice()) {
                Some(v) => v,
                None => {
                    return Err(ParseError { line: cur + 1, kind: ErrorKind::InvalidCoordinate });
                },
            };
            let z = match parse_real(toks[3].as_slice()) {
                Some(v) => v,
                None => {
                    return Err(ParseError { line: cur + 1, kind: ErrorKind::InvalidCoordinate });
                },
            };
            coords.push_atom(num, x, y, z);
            k += 1;
        }
        proof {
            assert(spec_parse_cards(ld, i + 2 as int, n as int, CoordsVal::empty(), tbl) == Result::<
                Option<CoordsVal>,
                ParseError,
            >::Ok(Some(coords@)));
        }
        let _clen = coords.len();
        let data = encode_coords(&coords);
        proof {
            crate::codec::lemma_coords_round_trip(coords@);
        }
        last_nums = vstd::slice::slice_to_vec(coords.atomic_num.as_slice());
        let child = Node {
            name: title,
            kind: crate::model::kind_atomic_coordinates(),
            data,
            children: Vec::new(),
        };
        let ghost old_gacc = gacc;
        children.push(child);
        proof {
            gacc = gacc.push(XyzBlock { title: gtitle, coords: coords@ });
            assert(children@.len() == gacc.len());
            assert(child_matches_block(children@[gacc.len() - 1], gacc[gacc.len() - 1]));
            assert(gacc.last().coords.nums == coords@.nums);
        }
        i = i + 2 + n;
        proof {
            if i >= nlines {
                assert(spec_parse_blocks(ld, (i - 2 - n) as int, old_gacc, tbl) == Result::<
                    Seq<XyzBlock>,
                    ParseError,
                >::Ok(gacc));
            }
        }
    }
    proof {
        assert(spec_parse(content@, tbl) == Result::<Seq<XyzBlock>, ParseError>::Ok(gacc));
    }
    Ok(finish(children, last_nums, file_name, Ghost(gacc)))
}

} // verus!

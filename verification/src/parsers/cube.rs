//! The Gaussian Cube format: two comment lines, a header with atom count
//! and origin, three grid lines, the atom table in bohr, an optional
//! dataset-identifier line, and a flat stream of volumetric values.

use vstd::prelude::*;
use vstd::slice::*;
use crate::codec::{encode_coords, encode_cube, spec_dec_coords, spec_dec_cube};
use crate::decimal::{
    bohr_to_angstrom, parse_real, real_of, spec_parse_real, spec_to_angstrom, Real,
};
use crate::errors::{ErrorKind, ParseError};
use crate::model::{AtomicCoordinates, CoordsVal, CubeVal, Node, VolumeCube};
use crate::text::{
    chars_to_string, parse_i32, spec_lines, spec_parse_i32, spec_tokens, spec_trim, split_lines,
    to_chars, tokens, trim,
};

verus! {

/// Everything one cube file yields: the grid record and its atoms.
pub ghost struct CubeOut {
    pub cube: CubeVal,
    pub coords: CoordsVal,
}

/// A grid line: an integer point count and a three-number step vector.
pub open spec fn spec_grid_line(l: Seq<char>, line_no: int) -> Result<(i32, Seq<Real>), ParseError> {
    let toks = spec_tokens(l);
    if toks.len() < 4 {
        Err(ParseError { line: line_no as usize, kind: ErrorKind::InvalidGridLine })
    } else {
        match spec_parse_i32(toks[0]) {
            None => Err(ParseError { line: line_no as usize, kind: ErrorKind::InvalidGridCount }),
            Some(n) => {
                if spec_parse_real(toks[1]) is Some && spec_parse_real(toks[2]) is Some
                    && spec_parse_real(toks[3]) is Some {
                    Ok(
                        (
                            n as i32,
                            seq![
                                real_of(spec_parse_real(toks[1])->0),
                                real_of(spec_parse_real(toks[2])->0),
                                real_of(spec_parse_real(toks[3])->0),
                            ],
                        ),
                    )
                } else {
                    Err(ParseError { line: line_no as usize, kind: ErrorKind::InvalidGridVector })
                }
            },
        }
    }
}

/// Reads `n` atom lines from line `i` on, converting bohr to angstrom.
pub open spec fn spec_atoms(lines: Seq<Seq<char>>, i: int, n: int, acc: CoordsVal) -> Result<
    CoordsVal,
    ParseError,
>
    decreases n,
{
    if n <= 0 {
        Ok(acc)
    } else if i >= lines.len() {
        Err(ParseError { line: 0, kind: ErrorKind::UnexpectedEnd })
    } else {
        let toks = spec_tokens(lines[i]);
        if toks.len() < 5 {
            Err(ParseError { line: (i + 1) as usize, kind: ErrorKind::InvalidAtomCard })
        } else {
            match spec_parse_i32(toks[0]) {
                None => Err(
                    ParseError { line: (i + 1) as usize, kind: ErrorKind::InvalidAtomNumber },
                ),
                Some(num) => {
                    if spec_parse_real(toks[2]) is Some && spec_parse_real(toks[3]) is Some
                        && spec_parse_real(toks[4]) is Some {
                        spec_atoms(
                            lines,
                            i + 1,
                            n - 1,
                            acc.push(
                                num as i32,
                                spec_to_angstrom(real_of(spec_parse_real(toks[2])->0)),
                                spec_to_angstrom(real_of(spec_parse_real(toks[3])->0)),
                                spec_to_angstrom(real_of(spec_parse_real(toks[4])->0)),
                            ),
                        )
                    } else {
                        Err(
                            ParseError {
                                line: (i + 1) as usize,
                                kind: ErrorKind::InvalidCoordinate,
                            },
                        )
                    }
                },
            }
        }
    }
}

/// The values of one line's tokens, all numeric or nothing.
pub open spec fn spec_line_values(toks: Seq<Seq<char>>, j: int) -> Option<Seq<Real>>
    decreases toks.len() - j,
    when 0 <= j
{
    if j >= toks.len() {
        Some(seq![])
    } else {
        match spec_parse_real(toks[j]) {
            None => None,
            Some(v) => match spec_line_values(toks, j + 1) {
                None => None,
                Some(s) => Some(seq![real_of(v)] + s),
            },
        }
    }
}

/// The flattened volumetric stream: every token of every remaining line.
pub open spec fn spec_values(lines: Seq<Seq<char>>, i: int) -> Result<Seq<Real>, ParseError>
    decreases lines.len() - i,
    when 0 <= i
{
    if i >= lines.len() {
        Ok(seq![])
    } else {
        match spec_line_values(spec_tokens(lines[i]), 0) {
            None => Err(ParseError { line: (i + 1) as usize, kind: ErrorKind::InvalidVolumeValue }),
            Some(vals) => match spec_values(lines, i + 1) {
                Err(e) => Err(e),
                Ok(rest) => Ok(vals + rest),
            },
        }
    }
}

/// The flat stream reshaped row-major into `n1` planes of `n2` rows of `n3`.
pub open spec fn spec_reshape(flat: Seq<Real>, n1: int, n2: int, n3: int) -> Seq<Seq<Seq<Real>>> {
    Seq::new(
        n1 as nat,
        |a: int|
            Seq::new(
                n2 as nat,
                |b: int| flat.subrange((a * n2 + b) * n3, (a * n2 + b) * n3 + n3),
            ),
    )
}

/// The value-per-voxel count the header declares, one when absent or unreadable.
pub open spec fn spec_nval(toks: Seq<Seq<char>>) -> int {
    if toks.len() > 4 {
        match spec_parse_i32(toks[4]) {
            Some(v) => v,
            None => 1,
        }
    } else {
        1
    }
}

/// The identifier count of the dataset line, one when absent or unreadable.
pub open spec fn spec_ids(toks: Seq<Seq<char>>) -> int {
    if toks.len() > 0 {
        match spec_parse_i32(toks[0]) {
            Some(v) => v,
            None => 1,
        }
    } else {
        1
    }
}

/// What parsing the whole cube content yields.
pub open spec fn spec_parse(lines: Seq<Seq<char>>) -> Result<CubeOut, ParseError> {
    if lines.len() < 3 {
        Err(ParseError { line: 0, kind: ErrorKind::UnexpectedEnd })
    } else {
        let toks = spec_tokens(lines[2]);
        if toks.len() < 4 {
            Err(ParseError { line: 3, kind: ErrorKind::InvalidHeader })
        } else {
            match spec_parse_i32(toks[0]) {
                None => Err(ParseError { line: 3, kind: ErrorKind::ExpectedAtomCount }),
                Some(natm_raw) => {
                    if natm_raw > 0 && spec_nval(toks) > 1 {
                        Err(
                            ParseError {
                                line: 0,
                                kind: ErrorKind::UnsupportedValuesPerVoxel(spec_nval(toks) as i32),
                            },
                        )
                    } else if !(spec_parse_real(toks[1]) is Some && spec_parse_real(toks[2]) is Some
                        && spec_parse_real(toks[3]) is Some) {
                        Err(ParseError { line: 3, kind: ErrorKind::InvalidCoordinate })
                    } else {
                        let origin = seq![
                            real_of(spec_parse_real(toks[1])->0),
                            real_of(spec_parse_real(toks[2])->0),
                            real_of(spec_parse_real(toks[3])->0),
                        ];
                        let dset = natm_raw < 0;
                        let natm = if natm_raw < 0 {
                            -(natm_raw as int)
                        } else {
                            natm_raw as int
                        };
                        spec_parse_grids(lines, origin, dset, natm)
                    }
                },
            }
        }
    }
}

/// The stages after the header: grid lines, atoms, identifiers and data.
pub open spec fn spec_parse_grids(
    lines: Seq<Seq<char>>,
    origin: Seq<Real>,
    dset: bool,
    natm: int,
) -> Result<CubeOut, ParseError> {
    if lines.len() < 6 {
        Err(ParseError { line: 0, kind: ErrorKind::UnexpectedEnd })
    } else {
        match (spec_grid_line(lines[3], 4), spec_grid_line(lines[4], 5), spec_grid_line(
            lines[5],
            6,
        )) {
            (Ok(ga), Ok(gb), Ok(gc)) => match spec_atoms(lines, 6, natm, CoordsVal::empty()) {
                Err(e) => Err(e),
                Ok(coords) => {
                    let di = 6 + natm;
                    if dset && di >= lines.len() {
                        Err(ParseError { line: 0, kind: ErrorKind::UnexpectedEnd })
                    } else if dset && spec_ids(spec_tokens(lines[di])) != 1 {
                        Err(
                            ParseError {
                                line: (di + 1) as usize,
                                kind: ErrorKind::UnsupportedIdsPerVoxel(
                                    spec_ids(spec_tokens(lines[di])) as i32,
                                ),
                            },
                        )
                    } else {
                        let vi = if dset {
                            di + 1
                        } else {
                            di
                        };
                        match spec_values(lines, vi) {
                            Err(e) => Err(e),
                            Ok(flat) => spec_finish(lines, origin, ga, gb, gc, coords, flat),
                        }
                    }
                },
            },
            (Err(e), _, _) => Err(e),
            (Ok(_), Err(e), _) => Err(e),
            (Ok(_), Ok(_), Err(e)) => Err(e),
        }
    }
}

/// The final size check and assembly of the grid record.
pub open spec fn spec_finish(
    lines: Seq<Seq<char>>,
    origin: Seq<Real>,
    ga: (i32, Seq<Real>),
    gb: (i32, Seq<Real>),
    gc: (i32, Seq<Real>),
    coords: CoordsVal,
    flat: Seq<Real>,
) -> Result<CubeOut, ParseError> {
    let n1 = (ga.0 as usize) as int;
    let n2 = (gb.0 as usize) as int;
    let n3 = (gc.0 as usize) as int;
    let tot = n1 * n2 * n3;
    if flat.len() != tot {
        Err(
            ParseError {
                line: 0,
                kind: ErrorKind::VolumeSizeMismatch {
                    expected: if tot <= usize::MAX {
                        tot as usize
                    } else {
                        usize::MAX
                    },
                    found: flat.len() as usize,
                },
            },
        )
    } else {
        Ok(
            CubeOut {
                cube: CubeVal {
                    comment1: spec_trim(lines[0]),
                    comment2: spec_trim(lines[1]),
                    origin,
                    steps_number: seq![ga.0, gb.0, gc.0],
                    steps_size: seq![ga.1, gb.1, gc.1],
                    cube_data: spec_reshape(flat, n1, n2, n3),
                },
                coords,
            },
        )
    }
}

/// The law of the volumetric stream: whenever the content reaches the data
/// stage and the flattened stream does not hold exactly one value per grid
/// point, the parse fails with the size mismatch — it never truncates or
/// pads.
pub proof fn lemma_size_mismatch(
    lines: Seq<Seq<char>>,
    origin: Seq<Real>,
    dset: bool,
    natm: int,
)
    requires
        lines.len() >= 6,
        spec_grid_line(lines[3], 4) is Ok,
        spec_grid_line(lines[4], 5) is Ok,
        spec_grid_line(lines[5], 6) is Ok,
        spec_atoms(lines, 6, natm, CoordsVal::empty()) is Ok,
        dset ==> 6 + natm < lines.len() && spec_ids(spec_tokens(lines[6 + natm])) == 1,
        spec_values(
            lines,
            if dset {
                7 + natm
            } else {
                6 + natm
            },
        ) is Ok,
        ({
            let flat = spec_values(
                lines,
                if dset {
                    7 + natm
                } else {
                    6 + natm
                },
            )->Ok_0;
            let n1 = (spec_grid_line(lines[3], 4)->Ok_0.0 as usize) as int;
            let n2 = (spec_grid_line(lines[4], 5)->Ok_0.0 as usize) as int;
            let n3 = (spec_grid_line(lines[5], 6)->Ok_0.0 as usize) as int;
            flat.len() != n1 * n2 * n3
        }),
    ensures
        spec_parse_grids(lines, origin, dset, natm) is Err,
        spec_parse_grids(lines, origin, dset, natm)->Err_0.kind matches
            ErrorKind::VolumeSizeMismatch { expected: _, found: f } && f as int == spec_values(
            lines,
            if dset {
                7 + natm
            } else {
                6 + natm
            },
        )->Ok_0.len() as usize as int,
{
}

/// What the recognizer accepts: at least six lines, a header whose first field
/// is an integer and next three are numbers, and three grid lines of the
/// same shape.
pub open spec fn spec_test(content: Seq<char>) -> bool {
    let lines = spec_lines(content);
    &&& lines.len() >= 6
    &&& spec_header_shape(spec_tokens(lines[2]))
    &&& spec_header_shape(spec_tokens(lines[3]))
    &&& spec_header_shape(spec_tokens(lines[4]))
    &&& spec_header_shape(spec_tokens(lines[5]))
}

/// An integer field followed by three numeric fields.
pub open spec fn spec_header_shape(toks: Seq<Seq<char>>) -> bool {
    &&& toks.len() >= 4
    &&& spec_parse_i32(toks[0]) is Some
    &&& crate::decimal::spec_number_shape(toks[1])
    &&& crate::decimal::spec_number_shape(toks[2])
    &&& crate::decimal::spec_number_shape(toks[3])
}

/// The root volume node carrying the parsed cube and its atoms.
pub open spec fn spec_node_matches(n: Node, fname: Seq<char>, out: CubeOut) -> bool {
    &&& n.name@ == fname
    &&& n.kind@ == "mircmd:chemistry:volume_cube"@
    &&& spec_dec_cube(n.data@) == Some(out.cube)
    &&& n.children.len() == 1
    &&& n.children[0].name@ == "CubeMol"@
    &&& n.children[0].kind@ == "mircmd:chemistry:atomic_coordinates"@
    &&& spec_dec_coords(n.children[0].data@) == Some(out.coords)
    &&& out.coords.wf()
    &&& n.children[0].children.len() == 0
}

/// Parses one grid line into its point count and step vector.
fn parse_grid_line(l: &[char], line_no: usize) -> (r: Result<(i32, Vec<Real>), ParseError>)
    ensures
        r is Ok <==> spec_grid_line(l@, line_no as int) is Ok,
        r matches Ok(v) ==> spec_grid_line(l@, line_no as int) == Result::<
            (i32, Seq<Real>),
            ParseError,
        >::Ok((v.0, v.1@)),
        r matches Ok(v) ==> v.1@.len() == 3,
        r matches Err(e) ==> spec_grid_line(l@, line_no as int) == Result::<
            (i32, Seq<Real>),
            ParseError,
        >::Err(e),
{
    let toks = tokens(l);
    proof {
        assert(toks.deep_view().len() == toks@.len());
    }
    if toks.len() < 4 {
        return Err(ParseError { line: line_no, kind: ErrorKind::InvalidGridLine });
    }
    proof {
        assert(toks.deep_view()[0] == toks@[0]@);
        assert(toks.deep_view()[1] == toks@[1]@);
        assert(toks.deep_view()[2] == toks@[2]@);
        assert(toks.deep_view()[3] == toks@[3]@);
    }
    let n = match parse_i32(toks[0].as_slice()) {
        Some(v) => v,
        None => {
            return Err(ParseError { line: line_no, kind: ErrorKind::InvalidGridCount });
        },
    };
    let va = match parse_real(toks[1].as_slice()) {
        Some(v) => v,
        None => {
            return Err(ParseError { line: line_no, kind: ErrorKind::InvalidGridVector });
        },
    };
    let vb = match parse_real(toks[2].as_slice()) {
        Some(v) => v,
        None => {
            return Err(ParseError { line: line_no, kind: ErrorKind::InvalidGridVector });
        },
    };
    let vc = match parse_real(toks[3].as_slice()) {
        Some(v) => v,
        None => {
            return Err(ParseError { line: line_no, kind: ErrorKind::InvalidGridVector });
        },
    };
    let mut vec: Vec<Real> = Vec::new();
    vec.push(va);
    vec.push(vb);
    vec.push(vc);
    proof {
        assert(vec@ =~= spec_grid_line(l@, line_no as int)->Ok_0.1);
    }
    Ok((n, vec))
}

/// Reads the atom table: `natm` lines from line seven on.
fn parse_atoms(lines: &Vec<Vec<char>>, natm: usize) -> (r: Result<AtomicCoordinates, ParseError>)
    requires
        lines@.len() >= 6,
        natm <= 0x8000_0000,
    ensures
        r is Ok <==> spec_atoms(lines.deep_view(), 6, natm as int, CoordsVal::empty()) is Ok,
        r matches Ok(c) ==> spec_atoms(lines.deep_view(), 6, natm as int, CoordsVal::empty())
            == Result::<CoordsVal, ParseError>::Ok(c@) && c@.wf() && c@.nums.len() == natm,
        r matches Err(e) ==> spec_atoms(lines.deep_view(), 6, natm as int, CoordsVal::empty())
            == Result::<CoordsVal, ParseError>::Err(e),
{
    let ghost ld = lines.deep_view();
    let nlines = lines.len();
    let mut coords = AtomicCoordinates::new();
    let mut j: usize = 0;
    while j < natm
        invariant
            j <= natm,
            natm <= 0x8000_0000,
            nlines == ld.len(),
            nlines >= 6,
            lines.deep_view() == ld,
            coords@.wf(),
            coords@.nums.len() == j,
            6 + j <= nlines || j == 0,
            spec_atoms(ld, 6, natm as int, CoordsVal::empty()) == spec_atoms(
                ld,
                (6 + j) as int,
                (natm - j) as int,
                coords@,
            ),
        decreases natm - j,
    {
        if j >= nlines - 6 {
            return Err(ParseError { line: 0, kind: ErrorKind::UnexpectedEnd });
        }
        let cur = 6 + j;
        proof {
            assert(ld[cur as int] == lines@[cur as int]@);
        }
        let toks = tokens(lines[cur].as_slice());
        proof {
            assert(toks.deep_view().len() == toks@.len());
        }
        if toks.len() < 5 {
            return Err(ParseError { line: cur + 1, kind: ErrorKind::InvalidAtomCard });
        }
        proof {
            assert(toks.deep_view()[0] == toks@[0]@);
            assert(toks.deep_view()[2] == toks@[2]@);
            assert(toks.deep_view()[3] == toks@[3]@);
            assert(toks.deep_view()[4] == toks@[4]@);
        }
        let num = match parse_i32(toks[0].as_slice()) {
            Some(v) => v,
            None => {
                return Err(ParseError { line: cur + 1, kind: ErrorKind::InvalidAtomNumber });
            },
        };
        let x = match parse_real(toks[2].as_slice()) {
            Some(v) => v,
            None => {
                return Err(ParseError { line: cur + 1, kind: ErrorKind::InvalidCoordinate });
            },
        };
        let y = match parse_real(toks[3].as_slice()) {
            Some(v) => v,
            None => {
                return Err(ParseError { line: cur + 1, kind: ErrorKind::InvalidCoordinate });
            },
        };
        let z = match parse_real(toks[4].as_slice()) {
            Some(v) => v,
            None => {
                return Err(ParseError { line: cur + 1, kind: ErrorKind::InvalidCoordinate });
            },
        };
        coords.push_atom(num, bohr_to_angstrom(x), bohr_to_angstrom(y), bohr_to_angstrom(z));
        j += 1;
    }
    Ok(coords)
}

/// Collects the numeric values of one line into the stream.
fn line_values(l: &[char], out: &mut Vec<Real>) -> (ok: bool)
    ensures
        ok <==> spec_line_values(spec_tokens(l@), 0) is Some,
        ok ==> final(out)@ == old(out)@ + spec_line_values(spec_tokens(l@), 0)->0,
{
    let toks = tokens(l);
    let ghost gtoks = spec_tokens(l@);
    let n = toks.len();
    proof {
        assert(toks.deep_view().len() == toks@.len());
    }
    let mut j: usize = 0;
    while j < n
        invariant
            j <= n,
            n == toks@.len(),
            toks.deep_view() == gtoks,
            gtoks == spec_tokens(l@),
            spec_line_values(gtoks, j as int) is None ==> spec_line_values(gtoks, 0) is None,
            spec_line_values(gtoks, j as int) is Some ==> spec_line_values(gtoks, 0) == Some(
                out@.subrange(old(out)@.len() as int, out@.len() as int) + spec_line_values(
                    gtoks,
                    j as int,
                )->0,
            ),
            out@.len() >= old(out)@.len(),
            out@.subrange(0, old(out)@.len() as int) == old(out)@,
        decreases n - j,
    {
        proof {
            assert(toks.deep_view()[j as int] == toks@[j as int]@);
        }
        let v = match parse_real(toks[j].as_slice()) {
            Some(v) => v,
            None => {
                proof {
                    assert(spec_line_values(gtoks, j as int) is None);
                }
                return false;
            },
        };
        let ghost prev = out@;
        out.push(v);
        j += 1;
        proof {
            let got = out@.subrange(old(out)@.len() as int, out@.len() as int);
            if spec_line_values(gtoks, j as int) is Some {
                let rest = spec_line_values(gtoks, j as int)->0;
                assert(prev.subrange(old(out)@.len() as int, prev.len() as int).push(v) =~= got);
                assert(got + rest =~= prev.subrange(old(out)@.len() as int, prev.len() as int) + (
                seq![v] + rest));
            }
            assert(out@.subrange(0, old(out)@.len() as int) =~= old(out)@);
        }
    }
    proof {
        let got = out@.subrange(old(out)@.len() as int, out@.len() as int);
        assert(got + Seq::<Real>::empty() =~= got);
        assert(old(out)@ + got =~= out@);
    }
    true
}

/// Collects the flattened volumetric stream from line `vi` to the end.
fn parse_values(lines: &Vec<Vec<char>>, vi: usize) -> (r: Result<Vec<Real>, ParseError>)
    requires
        vi <= lines@.len(),
    ensures
        r is Ok <==> spec_values(lines.deep_view(), vi as int) is Ok,
        r matches Ok(v) ==> spec_values(lines.deep_view(), vi as int) == Result::<
            Seq<Real>,
            ParseError,
        >::Ok(v@),
        r matches Err(e) ==> spec_values(lines.deep_view(), vi as int) == Result::<
            Seq<Real>,
            ParseError,
        >::Err(e),
{
    let ghost ld = lines.deep_view();
    let nlines = lines.len();
    let mut flat: Vec<Real> = Vec::new();
    let mut i = vi;
    proof {
        assert(flat@ + spec_values(ld, vi as int)->Ok_0 =~= spec_values(ld, vi as int)->Ok_0);
    }
    while i < nlines
        invariant
            vi <= i <= nlines,
            nlines == ld.len(),
            lines.deep_view() == ld,
            (match spec_values(ld, i as int) {
                Ok(rest) => spec_values(ld, vi as int) == Result::<Seq<Real>, ParseError>::Ok(
                    flat@ + rest,
                ),
                Err(e) => spec_values(ld, vi as int) == Result::<Seq<Real>, ParseError>::Err(e),
            }),
        decreases nlines - i,
    {
        proof {
            assert(ld[i as int] == lines@[i as int]@);
        }
        let ghost prev = flat@;
        let ok = line_values(lines[i].as_slice(), &mut flat);
        if !ok {
            return Err(ParseError { line: i + 1, kind: ErrorKind::InvalidVolumeValue });
        }
        i += 1;
        proof {
            if spec_values(ld, i as int) is Ok {
                let rest = spec_values(ld, i as int)->Ok_0;
                let vals = spec_line_values(spec_tokens(ld[i - 1 as int]), 0)->0;
                assert(prev + (vals + rest) =~= flat@ + rest);
            }
        }
    }
    proof {
        assert(flat@ + Seq::<Real>::empty() =~= flat@);
    }
    Ok(flat)
}

/// Reshapes the flat stream into planes and rows, row-major.
fn reshape(flat: &Vec<Real>, n1: usize, n2: usize, n3: usize) -> (grid: Vec<Vec<Vec<Real>>>)
    requires
        flat@.len() == (n1 as int) * (n2 as int) * (n3 as int),
    ensures
        crate::codec::grid_view(grid) == spec_reshape(flat@, n1 as int, n2 as int, n3 as int),
        grid@.len() == n1,
        forall|p: int| 0 <= p < n1 ==> (#[trigger] grid@[p])@.len() == n2,
        forall|p: int, q: int|
            0 <= p < n1 && 0 <= q < n2 ==> (#[trigger] (grid@[p])@[q])@.len() == n3,
{
    let ghost target = spec_reshape(flat@, n1 as int, n2 as int, n3 as int);
    let flen = flat.len();
    let mut grid: Vec<Vec<Vec<Real>>> = Vec::new();
    let mut idx: usize = 0;
    let mut a: usize = 0;
    while a < n1
        invariant
            a <= n1,
            flen == flat@.len(),
            flat@.len() == (n1 as int) * (n2 as int) * (n3 as int),
            target == spec_reshape(flat@, n1 as int, n2 as int, n3 as int),
            grid@.len() == a,
            idx == (a as int) * (n2 as int) * (n3 as int),
            idx <= flat@.len(),
            forall|p: int|
                0 <= p < a ==> crate::codec::rows_view(#[trigger] grid@[p]) == target[p],
            forall|p: int| 0 <= p < a ==> (#[trigger] grid@[p])@.len() == n2,
            forall|p: int, q: int|
                0 <= p < a && 0 <= q < n2 ==> (#[trigger] (grid@[p])@[q])@.len() == n3,
        decreases n1 - a,
    {
        let mut plane: Vec<Vec<Real>> = Vec::new();
        let mut b: usize = 0;
        proof {
            assert((a as int) * (n2 as int) * (n3 as int) == ((a as int) * (n2 as int) + 0) * (
            n3 as int)) by (nonlinear_arith);
        }
        while b < n2
            invariant
                a < n1,
                b <= n2,
                flen == flat@.len(),
                flat@.len() == (n1 as int) * (n2 as int) * (n3 as int),
                target == spec_reshape(flat@, n1 as int, n2 as int, n3 as int),
                plane@.len() == b,
                idx == ((a as int) * (n2 as int) + (b as int)) * (n3 as int),
                forall|q: int|
                    0 <= q < b ==> (#[trigger] plane@[q])@ == flat@.subrange(
                        ((a as int) * (n2 as int) + q) * (n3 as int),
                        ((a as int) * (n2 as int) + q) * (n3 as int) + (n3 as int),
                    ),
                forall|q: int| 0 <= q < b ==> ((#[trigger] plane@[q])@).len() == n3,
            decreases n2 - b,
        {
            proof {
                assert(((a as int) * (n2 as int) + (b as int)) * (n3 as int) + (n3 as int) <= (
                n1 as int) * (n2 as int) * (n3 as int)) by (nonlinear_arith)
                    requires
                        0 <= a < n1,
                        0 <= b < n2,
                        0 <= n3,
                ;
            }
            let row = slice_to_vec(slice_subrange(flat.as_slice(), idx, idx + n3));
            plane.push(row);
            idx += n3;
            b += 1;
            proof {
                assert(((a as int) * (n2 as int) + (b - 1)) * (n3 as int) + (n3 as int) == ((
                a as int) * (n2 as int) + (b as int)) * (n3 as int)) by (nonlinear_arith);
            }
        }
        let ghost ga = a as int;
        grid.push(plane);
        a += 1;
        proof {
            assert(((ga * (n2 as int)) + (n2 as int)) * (n3 as int) == (a as int) * (n2 as int) * (
            n3 as int)) by (nonlinear_arith)
                requires
                    ga + 1 == a as int,
            ;
            assert((a as int) * (n2 as int) * (n3 as int) <= (n1 as int) * (n2 as int) * (n3 as int))
                by (nonlinear_arith)
                requires
                    0 <= a <= n1,
                    0 <= n2,
                    0 <= n3,
            ;
            assert(crate::codec::rows_view(grid@[ga]) =~~= target[ga]);
        }
    }
    proof {
        assert(crate::codec::grid_view(grid) =~~= target);
    }
    grid
}

/// Assembles the volume node and its coordinate child.
fn make_nodes(cube: VolumeCube, coords: AtomicCoordinates, file_name: &str) -> (r: Node)
    requires
        crate::codec::cube_encodable(cube@),
        coords@.wf(),
    ensures
        r.name@ == file_name@,
        r.kind@ == "mircmd:chemistry:volume_cube"@,
        spec_dec_cube(r.data@) == Some(cube@),
        r.children.len() == 1,
        r.children[0].name@ == "CubeMol"@,
        r.children[0].kind@ == "mircmd:chemistry:atomic_coordinates"@,
        spec_dec_coords(r.children[0].data@) == Some(coords@),
        r.children[0].children.len() == 0,
{
    let cube_data_bytes = encode_cube(&cube);
    proof {
        crate::codec::lemma_cube_round_trip(cube@);
    }
    let _clen = coords.len();
    let coords_bytes = encode_coords(&coords);
    proof {
        crate::codec::lemma_coords_round_trip(coords@);
    }
    let child = Node {
        name: crate::text::chars_to_string(crate::text::to_chars("CubeMol").as_slice()),
        kind: crate::model::kind_atomic_coordinates(),
        data: coords_bytes,
        children: Vec::new(),
    };
    let mut children: Vec<Node> = Vec::new();
    children.push(child);
    let node = Node {
        name: file_name.to_owned(),
        kind: crate::model::kind_volume_cube(),
        data: cube_data_bytes,
        children,
    };
    proof {
        assert(node.children[0].name@ == "CubeMol"@);
    }
    node
}

/// The stages after the header: grid lines, atoms, identifiers and data.
#[verifier::rlimit(100)]
#[verifier::spinoff_prover]
fn parse_grids(
    lines: &Vec<Vec<char>>,
    origin: Vec<Real>,
    dset: bool,
    natm: usize,
    file_name: &str,
) -> (r: Result<Node, ParseError>)
    requires
        natm <= 0x8000_0000,
    ensures
        r is Ok <==> spec_parse_grids(lines.deep_view(), origin@, dset, natm as int) is Ok,
        r matches Err(e) ==> spec_parse_grids(lines.deep_view(), origin@, dset, natm as int)
            == Result::<CubeOut, ParseError>::Err(e),
        r matches Ok(node) ==> spec_node_matches(
            node,
            file_name@,
            spec_parse_grids(lines.deep_view(), origin@, dset, natm as int)->Ok_0,
        ),
{
    let ghost ld = lines.deep_view();
    let ghost gorigin = origin@;
    let nlines = lines.len();
    proof {
        assert(nlines == ld.len());
    }
    if nlines < 6 {
        return Err(ParseError { line: 0, kind: ErrorKind::UnexpectedEnd });
    }
    proof {
        assert(ld[0] == lines@[0]@);
        assert(ld[1] == lines@[1]@);
        assert(ld[3] == lines@[3]@);
        assert(ld[4] == lines@[4]@);
        assert(ld[5] == lines@[5]@);
    }
    let ga = match parse_grid_line(lines[3].as_slice(), 4) {
        Ok(v) => v,
        Err(e) => {
            return Err(e);
        },
    };
    let gb = match parse_grid_line(lines[4].as_slice(), 5) {
        Ok(v) => v,
        Err(e) => {
            return Err(e);
        },
    };
    let gc = match parse_grid_line(lines[5].as_slice(), 6) {
        Ok(v) => v,
        Err(e) => {
            return Err(e);
        },
    };
    let coords = match parse_atoms(lines, natm) {
        Ok(c) => c,
        Err(e) => {
            return Err(e);
        },
    };
    let di = 6 + natm;
    if dset && di >= nlines {
        return Err(ParseError { line: 0, kind: ErrorKind::UnexpectedEnd });
    }
    if dset {
        proof {
            assert(ld[di as int] == lines@[di as int]@);
        }
        let dtoks = tokens(lines[di].as_slice());
        proof {
            assert(dtoks.deep_view().len() == dtoks@.len());
        }
        if dtoks.len() > 0 {
            proof {
                assert(dtoks.deep_view()[0] == dtoks@[0]@);
            }
            let num_ids = match parse_i32(dtoks[0].as_slice()) {
                Some(v) => v,
                None => 1,
            };
            if num_ids != 1 {
                return Err(
                    ParseError { line: di + 1, kind: ErrorKind::UnsupportedIdsPerVoxel(num_ids) },
                );
            }
        }
    }
    let vi = if dset {
        di + 1
    } else {
        di
    };
    proof {
        if vi > nlines {
            assert(spec_values(ld, vi as int) == Result::<Seq<Real>, ParseError>::Ok(
                Seq::<Real>::empty(),
            ));
        }
    }
    let flat = if vi <= nlines {
        match parse_values(lines, vi) {
            Ok(v) => v,
            Err(e) => {
                return Err(e);
            },
        }
    } else {
        Vec::new()
    };
    let ghost gflat = flat@;
    let n1u = #[verifier::truncate] (ga.0 as usize);
    let n2u = #[verifier::truncate] (gb.0 as usize);
    let n3u = #[verifier::truncate] (gc.0 as usize);
    let ghost tot12g: int = (n1u as int) * (n2u as int);
    let tot: Option<usize> = if n1u == 0 || n2u == 0 || n3u == 0 {
        proof {
            assert((n1u as int) * (n2u as int) * (n3u as int) == 0) by (nonlinear_arith)
                requires
                    n1u == 0 || n2u == 0 || n3u == 0,
            ;
        }
        Some(0)
    } else {
        match n1u.checked_mul(n2u) {
            Some(t12) => {
                proof {
                    assert(t12 as int == tot12g);
                    if t12.checked_mul(n3u) is None {
                        assert((n1u as int) * (n2u as int) * (n3u as int) > usize::MAX as int)
                            by (nonlinear_arith)
                            requires
                                (t12 as int) == (n1u as int) * (n2u as int),
                                (t12 as int) * (n3u as int) > usize::MAX as int,
                        ;
                    }
                }
                t12.checked_mul(n3u)
            },
            None => {
                proof {
                    assert((n1u as int) * (n2u as int) * (n3u as int) > usize::MAX as int)
                        by (nonlinear_arith)
                        requires
                            (n1u as int) * (n2u as int) > usize::MAX as int,
                            n3u >= 1,
                    ;
                }
                None
            },
        }
    };
    let flen = flat.len();
    match tot {
        None => {
            return Err(
                ParseError {
                    line: 0,
                    kind: ErrorKind::VolumeSizeMismatch { expected: usize::MAX, found: flen },
                },
            );
        },
        Some(t) => {
            proof {
                if n1u != 0 && n2u != 0 && n3u != 0 {
                    assert(t as int == (n1u as int) * (n2u as int) * (n3u as int))
                        by (nonlinear_arith)
                        requires
                            tot12g == (n1u as int) * (n2u as int),
                            t as int == tot12g * (n3u as int),
                    ;
                }
            }
            if flen != t {
                return Err(
                    ParseError {
                        line: 0,
                        kind: ErrorKind::VolumeSizeMismatch { expected: t, found: flen },
                    },
                );
            }
            let grid = reshape(&flat, n1u, n2u, n3u);
            let mut steps_number: Vec<i32> = Vec::new();
            steps_number.push(ga.0);
            steps_number.push(gb.0);
            steps_number.push(gc.0);
            let mut steps_size: Vec<Vec<Real>> = Vec::new();
            steps_size.push(ga.1);
            steps_size.push(gb.1);
            steps_size.push(gc.1);
            let comment1 = {
                let t1 = trim(lines[0].as_slice());
                let _c1len = t1.len();
                chars_to_string(t1.as_slice())
            };
            let comment2 = {
                let t2 = trim(lines[1].as_slice());
                let _c2len = t2.len();
                chars_to_string(t2.as_slice())
            };
            let _olen = origin.len();
            let cube = VolumeCube {
                comment1,
                comment2,
                box_origin: origin,
                steps_number,
                steps_size,
                cube_data: grid,
            };
            let ghost gout = spec_parse_grids(ld, gorigin, dset, natm as int)->Ok_0;
            proof {
                assert(cube@.origin == gorigin);
                assert(cube@.steps_number =~= gout.cube.steps_number);
                assert(cube@.steps_size =~~= gout.cube.steps_size);
                assert(cube@.cube_data == crate::codec::grid_view(grid));
                assert(cube@ == gout.cube);
                assert(crate::codec::cube_encodable(cube@)) by {
                    assert(forall|p: int|
                        0 <= p < cube@.steps_size.len() ==> (#[trigger] cube@.steps_size[p]).len()
                            <= usize::MAX);
                    assert forall|p: int|
                        0 <= p < cube@.cube_data.len() implies crate::codec::rows_encodable(
                        #[trigger] cube@.cube_data[p],
                    ) by {
                        assert(cube@.cube_data[p] == crate::codec::rows_view(grid@[p]));
                        assert(forall|q: int|
                            0 <= q < cube@.cube_data[p].len() ==> (
                            #[trigger] cube@.cube_data[p][q]).len() == n3u as int);
                    }
                }
            }
            let node = make_nodes(cube, coords, file_name);
            Ok(node)
        },
    }
}

/// Parses Gaussian Cube content into a volume node with one coordinate
/// child.
#[verifier::rlimit(100)]
#[verifier::spinoff_prover]
pub fn parse(content: &str, file_name: &str) -> (r: Result<Node, ParseError>)
    ensures
        r is Ok <==> spec_parse(spec_lines(content@)) is Ok,
        r matches Err(e) ==> spec_parse(spec_lines(content@)) == Result::<
            CubeOut,
            ParseError,
        >::Err(e),
        r matches Ok(node) ==> spec_node_matches(
            node,
            file_name@,
            spec_parse(spec_lines(content@))->Ok_0,
        ),
{
    let cs = to_chars(content);
    let lines = split_lines(cs.as_slice());
    let ghost ld = lines.deep_view();
    let nlines = lines.len();
    proof {
        assert(nlines == ld.len());
    }
    if nlines < 3 {
        return Err(ParseError { line: 0, kind: ErrorKind::UnexpectedEnd });
    }
    proof {
        assert(ld[2] == lines@[2]@);
    }
    let htoks = tokens(lines[2].as_slice());
    proof {
        assert(htoks.deep_view().len() == htoks@.len());
    }
    if htoks.len() < 4 {
        return Err(ParseError { line: 3, kind: ErrorKind::InvalidHeader });
    }
    proof {
        assert(htoks.deep_view()[0] == htoks@[0]@);
        assert(htoks.deep_view()[1] == htoks@[1]@);
        assert(htoks.deep_view()[2] == htoks@[2]@);
        assert(htoks.deep_view()[3] == htoks@[3]@);
    }
    let natm_raw = match parse_i32(htoks[0].as_slice()) {
        Some(v) => v,
        None => {
            return Err(ParseError { line: 3, kind: ErrorKind::ExpectedAtomCount });
        },
    };
    if natm_raw > 0 && htoks.len() > 4 {
        proof {
            assert(htoks.deep_view()[4] == htoks@[4]@);
        }
        let nval = match parse_i32(htoks[4].as_slice()) {
            Some(v) => v,
            None => 1,
        };
        if nval > 1 {
            return Err(ParseError { line: 0, kind: ErrorKind::UnsupportedValuesPerVoxel(nval) });
        }
    }
    let ox = match parse_real(htoks[1].as_slice()) {
        Some(v) => v,
        None => {
            return Err(ParseError { line: 3, kind: ErrorKind::InvalidCoordinate });
        },
    };
    let oy = match parse_real(htoks[2].as_slice()) {
        Some(v) => v,
        None => {
            return Err(ParseError { line: 3, kind: ErrorKind::InvalidCoordinate });
        },
    };
    let oz = match parse_real(htoks[3].as_slice()) {
        Some(v) => v,
        None => {
            return Err(ParseError { line: 3, kind: ErrorKind::InvalidCoordinate });
        },
    };
    let mut origin: Vec<Real> = Vec::new();
    origin.push(ox);
    origin.push(oy);
    origin.push(oz);
    proof {
        assert(origin@ =~= seq![ox, oy, oz]);
    }
    let dset = natm_raw < 0;
    let natm: usize = if natm_raw < 0 {
        (-(natm_raw as i64)) as usize
    } else {
        natm_raw as usize
    };
    parse_grids(&lines, origin, dset, natm, file_name)
}

/// Whether the line's tokens fit the header shape.
fn header_shape(l: &[char]) -> (r: bool)
    ensures
        r == spec_header_shape(spec_tokens(l@)),
{
    let toks = tokens(l);
    proof {
        assert(toks.deep_view().len() == toks@.len());
    }
    if toks.len() < 4 {
        return false;
    }
    proof {
        assert(toks.deep_view()[0] == toks@[0]@);
        assert(toks.deep_view()[1] == toks@[1]@);
        assert(toks.deep_view()[2] == toks@[2]@);
        assert(toks.deep_view()[3] == toks@[3]@);
    }
    let n0 = parse_i32(toks[0].as_slice());
    n0.is_some() && crate::decimal::is_number(toks[1].as_slice()) && crate::decimal::is_number(
        toks[2].as_slice(),
    ) && crate::decimal::is_number(toks[3].as_slice())
}

/// Recognizes Gaussian Cube content by its first six lines.
pub fn test(content: &str) -> (r: bool)
    ensures
        r == spec_test(content@),
{
    let cs = to_chars(content);
    let lines = split_lines(cs.as_slice());
    let ghost ld = lines.deep_view();
    if lines.len() < 6 {
        return false;
    }
    proof {
        assert(ld[2] == lines@[2]@);
        assert(ld[3] == lines@[3]@);
        assert(ld[4] == lines@[4]@);
        assert(ld[5] == lines@[5]@);
    }
    header_shape(lines[2].as_slice()) && header_shape(lines[3].as_slice()) && header_shape(
        lines[4].as_slice(),
    ) && header_shape(lines[5].as_slice())
}

} // verus!

//! UNEX output files. The first line names the program and its version;
//! the version picks one of two coordinate-table layouts. Tables are
//! grouped by molecule name, first seen first, and numbered per molecule.

use vstd::prelude::*;
use vstd::string::*;
use crate::codec::{encode_coords, spec_dec_coords};
use crate::decimal::{find_from, parse_real, real_of, spec_parse_real};
use crate::errors::{ErrorKind, ParseError};
use crate::model::{AtomicCoordinates, CoordsVal, Node};
use crate::table::{spec_lookup, PeriodicTable};
use crate::text::{
    all_digits, chars_to_string, contains, digits_string, is_digit, parse_i32, spec_contains,
    spec_digits, spec_lines, spec_parse_i32, spec_tokens, spec_trim, split_lines, str_eq_chars,
    to_chars, tokens, trim,
};

verus! {

/// A character the build field of a version token may hold.
pub open spec fn is_build_char(c: char) -> bool {
    ('a' <= c && c <= 'z') || is_digit(c)
}

pub open spec fn all_build_chars(s: Seq<char>) -> bool {
    forall|i: int| 0 <= i < s.len() ==> is_build_char(#[trigger] s[i])
}

/// The version a `MAJOR.MINOR-PATCH-BUILD` token encodes, folded into
/// `major * 1_000_000 + minor * 10_000 + patch`.
pub open spec fn spec_version_token(t: Seq<char>) -> Option<int> {
    let dot = find_from(t, 0, '.', '.');
    if dot >= t.len() {
        None
    } else {
        let d1 = find_from(t, dot + 1, '-', '-');
        if d1 >= t.len() {
            None
        } else {
            let d2 = find_from(t, d1 + 1, '-', '-');
            if d2 >= t.len() {
                None
            } else {
                let major = t.take(dot);
                let minor = t.subrange(dot + 1, d1);
                let patch = t.subrange(d1 + 1, d2);
                let build = t.skip(d2 + 1);
                if major.len() > 0 && all_digits(major) && minor.len() > 0 && all_digits(minor)
                    && patch.len() > 0 && all_digits(patch) && build.len() > 0 && all_build_chars(
                    build,
                ) {
                    match (spec_parse_i32(major), spec_parse_i32(minor), spec_parse_i32(patch)) {
                        (Some(ma), Some(mi), Some(pa)) => Some(1_000_000 * ma + 10_000 * mi + pa),
                        _ => None,
                    }
                } else {
                    None
                }
            }
        }
    }
}

/// The version the first line declares: it must open with the program name
/// and carry a version token as its second field.
pub open spec fn spec_version(line: Seq<char>) -> Option<int> {
    let t = spec_trim(line);
    let toks = spec_tokens(line);
    if t.len() >= 4 && t.subrange(0, 4) == "UNEX"@ && toks.len() >= 2 {
        spec_version_token(toks[1])
    } else {
        None
    }
}

/// Whether every character fits the build field.
fn all_build_chars_exec(t: &[char]) -> (r: bool)
    ensures
        r == all_build_chars(t@),
{
    let n = t.len();
    let mut i: usize = 0;
    while i < n
        invariant
            i <= n,
            n == t@.len(),
            forall|p: int| 0 <= p < i ==> is_build_char(#[trigger] t@[p]),
        decreases n - i,
    {
        let c = t[i];
        if !(('a' <= c && c <= 'z') || ('0' <= c && c <= '9')) {
            return false;
        }
        i += 1;
    }
    true
}

/// Whether every character is a digit.
fn all_digits_exec(t: &[char]) -> (r: bool)
    ensures
        r == all_digits(t@),
{
    let n = t.len();
    let mut i: usize = 0;
    while i < n
        invariant
            i <= n,
            n == t@.len(),
            forall|p: int| 0 <= p < i ==> is_digit(#[trigger] t@[p]),
        decreases n - i,
    {
        let c = t[i];
        if c < '0' || c > '9' {
            return false;
        }
        i += 1;
    }
    true
}

/// First position at or after `from` holding `c`, or the length.
fn find_char(t: &[char], from: usize, c: char) -> (r: usize)
    requires
        from <= t@.len(),
    ensures
        r as int == find_from(t@, from as int, c, c),
        from <= r <= t@.len(),
{
    let n = t.len();
    let mut i = from;
    while i < n
        invariant
            from <= i <= n,
            n == t@.len(),
            find_from(t@, from as int, c, c) == find_from(t@, i as int, c, c),
        decreases n - i,
    {
        if t[i] == c {
            return i;
        }
        i += 1;
    }
    i
}

/// Decodes the folded version number of a version token.
fn version_token(t: &[char]) -> (r: Option<u64>)
    ensures
        r is Some <==> spec_version_token(t@) is Some,
        r matches Some(v) ==> v as int == spec_version_token(t@)->0,
{
    let n = t.len();
    let dot = find_char(t, 0, '.');
    if dot >= n {
        return None;
    }
    let d1 = find_char(t, dot + 1, '-');
    if d1 >= n {
        return None;
    }
    let d2 = find_char(t, d1 + 1, '-');
    if d2 >= n {
        return None;
    }
    let major = vstd::slice::slice_subrange(t, 0, dot);
    let minor = vstd::slice::slice_subrange(t, dot + 1, d1);
    let patch = vstd::slice::slice_subrange(t, d1 + 1, d2);
    let build = vstd::slice::slice_subrange(t, d2 + 1, n);
    proof {
        assert(major@ =~= t@.take(dot as int));
        assert(minor@ =~= t@.subrange(dot + 1 as int, d1 as int));
        assert(patch@ =~= t@.subrange(d1 + 1 as int, d2 as int));
        assert(build@ =~= t@.skip(d2 + 1 as int));
    }
    if !(major.len() > 0 && all_digits_exec(major) && minor.len() > 0 && all_digits_exec(minor)
        && patch.len() > 0 && all_digits_exec(patch) && build.len() > 0 && all_build_chars_exec(
        build,
    )) {
        return None;
    }
    let ma = match parse_i32(major) {
        Some(v) => v,
        None => {
            return None;
        },
    };
    let mi = match parse_i32(minor) {
        Some(v) => v,
        None => {
            return None;
        },
    };
    let pa = match parse_i32(patch) {
        Some(v) => v,
        None => {
            return None;
        },
    };
    proof {
        crate::text::lemma_digits_val_nonneg(major@);
        crate::text::lemma_digits_val_nonneg(minor@);
        crate::text::lemma_digits_val_nonneg(patch@);
    }
    Some(1_000_000u64 * (ma as u64) + 10_000u64 * (mi as u64) + (pa as u64))
}

/// Decodes the folded version number of the first line, if it declares one.
pub fn get_format_version(line: &[char]) -> (r: Option<u64>)
    ensures
        r is Some <==> spec_version(line@) is Some,
        r matches Some(v) ==> v as int == spec_version(line@)->0,
{
    let t = trim(line);
    if t.len() < 4 {
        return None;
    }
    let p = vstd::slice::slice_subrange(t.as_slice(), 0, 4);
    proof {
        assert(p@ =~= spec_trim(line@).subrange(0, 4));
    }
    if !str_eq_chars("UNEX", p) {
        proof {
            reveal_strlit("UNEX");
        }
        return None;
    }
    proof {
        reveal_strlit("UNEX");
    }
    let toks = tokens(line);
    proof {
        assert(toks.deep_view().len() == toks@.len());
    }
    if toks.len() < 2 {
        return None;
    }
    proof {
        assert(toks.deep_view()[1] == toks@[1]@);
    }
    version_token(toks[1].as_slice())
}

/// What the recognizer accepts: the first line declares a decodable version.
pub open spec fn spec_test(content: Seq<char>) -> bool {
    let lines = spec_lines(content);
    lines.len() > 0 && spec_version(lines[0]) is Some
}

/// Recognizes UNEX content by its first line.
pub fn test(content: &str) -> (r: bool)
    ensures
        r == spec_test(content@),
{
    let cs = to_chars(content);
    let lines = split_lines(cs.as_slice());
    let ghost ld = lines.deep_view();
    if lines.len() == 0 {
        return false;
    }
    proof {
        assert(ld[0] == lines@[0]@);
    }
    get_format_version(lines[0].as_slice()).is_some()
}

/// The table line that opens a coordinate block in the older layout.
pub open spec fn spec_marker1() -> Seq<char> {
    "> Cartesian coordinates of all atoms (Angstroms) in"@
}

/// The table line that opens a coordinate block in the newer layout.
pub open spec fn spec_marker2() -> Seq<char> {
    "Cartesian coordinates (Angstroms) of atoms in"@
}

/// First line at or after `i` that ends a table: just past the delimiter
/// line, or the length when none follows.
pub open spec fn spec_row_end(lines: Seq<Seq<char>>, i: int) -> int
    decreases lines.len() - i,
    when 0 <= i
{
    if i >= lines.len() {
        i
    } else if spec_contains(lines[i], "--"@) {
        i + 1
    } else {
        spec_row_end(lines, i + 1)
    }
}

pub proof fn lemma_row_end(lines: Seq<Seq<char>>, i: int)
    requires
        0 <= i <= lines.len(),
    ensures
        i <= spec_row_end(lines, i) <= lines.len() + 1,
    decreases lines.len() - i,
{
    if i < lines.len() && !spec_contains(lines[i], "--"@) {
        lemma_row_end(lines, i + 1);
    }
}

/// A table row in the program's own layout: seven or more fields, the
/// atomic number in the third, coordinates in the fifth to seventh. A row
/// that does not fit is dropped without error.
pub open spec fn spec_rows_u(lines: Seq<Seq<char>>, i: int, acc: CoordsVal) -> CoordsVal
    decreases lines.len() - i,
    when 0 <= i
{
    if i >= lines.len() {
        acc
    } else if spec_contains(lines[i], "--"@) {
        acc
    } else {
        let toks = spec_tokens(lines[i]);
        if toks.len() >= 7 && spec_parse_i32(toks[2]) is Some && spec_parse_real(toks[4]) is Some
            && spec_parse_real(toks[5]) is Some && spec_parse_real(toks[6]) is Some {
            spec_rows_u(
                lines,
                i + 1,
                acc.push(
                    spec_parse_i32(toks[2])->0 as i32,
                    real_of(spec_parse_real(toks[4])->0),
                    real_of(spec_parse_real(toks[5])->0),
                    real_of(spec_parse_real(toks[6])->0),
                ),
            )
        } else {
            spec_rows_u(lines, i + 1, acc)
        }
    }
}

/// A table row in the interchange layout: four or more fields, the element
/// symbol or the dummy mark first, then the coordinates. Unlike the
/// program's own layout, bad symbols and coordinates are hard errors.
pub open spec fn spec_rows_mol(
    lines: Seq<Seq<char>>,
    i: int,
    acc: CoordsVal,
    tbl: Seq<(String, i32)>,
) -> Result<CoordsVal, ParseError>
    decreases lines.len() - i,
    when 0 <= i
{
    if i >= lines.len() {
        Ok(acc)
    } else if spec_contains(lines[i], "--"@) {
        Ok(acc)
    } else {
        let toks = spec_tokens(lines[i]);
        if toks.len() >= 4 {
            let numr: Option<i32> = if toks[0] == seq!['X'] {
                Some((-1) as i32)
            } else {
                spec_lookup(tbl, toks[0])
            };
            match numr {
                None => Err(ParseError { line: (i + 1) as usize, kind: ErrorKind::UnknownElement }),
                Some(num) => {
                    if spec_parse_real(toks[1]) is Some && spec_parse_real(toks[2]) is Some
                        && spec_parse_real(toks[3]) is Some {
                        spec_rows_mol(
                            lines,
                            i + 1,
                            acc.push(
                                num,
                                real_of(spec_parse_real(toks[1])->0),
                                real_of(spec_parse_real(toks[2])->0),
                                real_of(spec_parse_real(toks[3])->0),
                            ),
                            tbl,
                        )
                    } else {
                        Err(
                            ParseError {
                                line: (i + 1) as usize,
                                kind: ErrorKind::InvalidCoordinate,
                            },
                        )
                    }
                },
            }
        } else {
            spec_rows_mol(lines, i + 1, acc, tbl)
        }
    }
}

/// One molecule group: its name and its coordinate sets, in order.
pub ghost struct GroupVal {
    pub name: Seq<char>,
    pub sets: Seq<CoordsVal>,
}

/// Index of the group with this name, or the length when new.
pub open spec fn group_idx(groups: Seq<GroupVal>, name: Seq<char>) -> int
    decreases groups.len(),
{
    if groups.len() == 0 {
        0
    } else if groups[0].name == name {
        0
    } else {
        1 + group_idx(groups.drop_first(), name)
    }
}

pub proof fn lemma_group_idx(groups: Seq<GroupVal>, name: Seq<char>)
    ensures
        0 <= group_idx(groups, name) <= groups.len(),
        group_idx(groups, name) < groups.len() ==> groups[group_idx(groups, name)].name == name,
        forall|p: int| 0 <= p < group_idx(groups, name) ==> (#[trigger] groups[p]).name != name,
    decreases groups.len(),
{
    if groups.len() > 0 && groups[0].name != name {
        lemma_group_idx(groups.drop_first(), name);
        assert(forall|p: int|
            1 <= p < group_idx(groups, name) ==> groups.drop_first()[p - 1] == #[trigger] groups[p]);
    }
}

/// The groups after one more set is filed under `name`, first seen first.
pub open spec fn add_set(groups: Seq<GroupVal>, name: Seq<char>, c: CoordsVal) -> Seq<GroupVal> {
    let gi = group_idx(groups, name);
    if gi == groups.len() {
        groups.push(GroupVal { name, sets: seq![c] })
    } else {
        groups.update(gi, GroupVal { name, sets: groups[gi].sets.push(c) })
    }
}

/// The molecule name before the marker of the older layout.
pub open spec fn spec_name1(line: Seq<char>) -> Seq<char> {
    spec_trim(line.take(find_from(line, 0, '>', '>')))
}

/// Walks the content in the older layout: every marker line files one set
/// under the name standing before the marker.
pub open spec fn spec_scan1(lines: Seq<Seq<char>>, i: int, groups: Seq<GroupVal>) -> Seq<GroupVal>
    decreases lines.len() - i,
    when 0 <= i
    via spec_scan1_dec
{
    if i >= lines.len() {
        groups
    } else if spec_contains(lines[i], spec_marker1()) {
        let start = if i + 4 <= lines.len() {
            i + 4
        } else {
            lines.len() as int
        };
        let c = spec_rows_u(lines, start, CoordsVal::empty());
        let e = spec_row_end(lines, start);
        let ni = if e <= lines.len() {
            e
        } else {
            lines.len() as int
        };
        if ni > i {
            spec_scan1(lines, ni, add_set(groups, spec_name1(lines[i]), c))
        } else {
            groups
        }
    } else {
        spec_scan1(lines, i + 1, groups)
    }
}

#[via_fn]
proof fn spec_scan1_dec(lines: Seq<Seq<char>>, i: int, groups: Seq<GroupVal>) {
    if 0 <= i < lines.len() && spec_contains(lines[i], spec_marker1()) {
        let start = if i + 4 <= lines.len() {
            i + 4
        } else {
            lines.len() as int
        };
        lemma_row_end(lines, start);
    }
}

/// The sub-format the block header declares: nothing yet, the program's
/// own layout, or the interchange layout.
pub open spec fn spec_hdr(lines: Seq<Seq<char>>, i: int, fmt: int, dashes: int) -> Result<
    (int, int),
    ParseError,
>
    decreases lines.len() - i,
    when 0 <= i
{
    if i >= lines.len() {
        Ok((fmt, i))
    } else if spec_contains(lines[i], "Format:"@) {
        let ft = spec_tokens(lines[i]);
        if ft.len() >= 2 {
            if ft[1] == "UNEX"@ {
                spec_hdr(lines, i + 1, 1, dashes)
            } else if ft[1] == "MOL"@ {
                spec_hdr(lines, i + 1, 2, dashes)
            } else {
                Err(ParseError { line: (i + 1) as usize, kind: ErrorKind::UnknownSubFormat })
            }
        } else {
            spec_hdr(lines, i + 1, fmt, dashes)
        }
    } else if spec_contains(lines[i], "--"@) {
        if fmt == 1 {
            if dashes + 1 == 2 {
                Ok((fmt, i + 1))
            } else {
                spec_hdr(lines, i + 1, fmt, dashes + 1)
            }
        } else {
            Ok((fmt, i + 1))
        }
    } else {
        spec_hdr(lines, i + 1, fmt, dashes)
    }
}

pub proof fn lemma_hdr(lines: Seq<Seq<char>>, i: int, fmt: int, dashes: int)
    requires
        0 <= i <= lines.len(),
    ensures
        spec_hdr(lines, i, fmt, dashes) matches Ok(h) ==> i <= h.1 <= lines.len(),
    decreases lines.len() - i,
{
    if i < lines.len() {
        if spec_contains(lines[i], "Format:"@) {
            let ft = spec_tokens(lines[i]);
            if ft.len() >= 2 {
                if ft[1] == "UNEX"@ {
                    lemma_hdr(lines, i + 1, 1, dashes);
                } else if ft[1] == "MOL"@ {
                    lemma_hdr(lines, i + 1, 2, dashes);
                }
            } else {
                lemma_hdr(lines, i + 1, fmt, dashes);
            }
        } else if spec_contains(lines[i], "--"@) {
            if fmt == 1 && dashes + 1 != 2 {
                lemma_hdr(lines, i + 1, fmt, dashes + 1);
            }
        } else {
            lemma_hdr(lines, i + 1, fmt, dashes);
        }
    }
}

/// The molecule name of a block in the newer layout: the seventh field of
/// the marker line, or a placeholder.
pub open spec fn spec_name2(line: Seq<char>) -> Seq<char> {
    let toks = spec_tokens(line);
    if toks.len() > 6 {
        toks[6]
    } else {
        "unknown"@
    }
}

/// Walks the content in the newer layout: every marker line declares a
/// sub-format in its header and files one set under the seventh field.
pub open spec fn spec_scan2(
    lines: Seq<Seq<char>>,
    i: int,
    groups: Seq<GroupVal>,
    tbl: Seq<(String, i32)>,
) -> Result<Seq<GroupVal>, ParseError>
    decreases lines.len() - i,
    when 0 <= i
    via spec_scan2_dec
{
    if i >= lines.len() {
        Ok(groups)
    } else if spec_contains(lines[i], spec_marker2()) {
        match spec_hdr(lines, i + 1, 0, 0) {
            Err(e) => Err(e),
            Ok(h) => {
                let start0 = if h.0 == 2 {
                    h.1 + 2
                } else {
                    h.1
                };
                let start = if start0 <= lines.len() {
                    start0
                } else {
                    lines.len() as int
                };
                let cres: Result<CoordsVal, ParseError> = if h.0 == 1 {
                    Ok(spec_rows_u(lines, start, CoordsVal::empty()))
                } else if h.0 == 2 {
                    spec_rows_mol(lines, start, CoordsVal::empty(), tbl)
                } else {
                    Ok(CoordsVal::empty())
                };
                match cres {
                    Err(e) => Err(e),
                    Ok(c) => {
                        let e = spec_row_end(lines, start);
                        let ni = if e <= lines.len() {
                            e
                        } else {
                            lines.len() as int
                        };
                        if ni > i {
                            spec_scan2(lines, ni, add_set(groups, spec_name2(lines[i]), c), tbl)
                        } else {
                            Ok(groups)
                        }
                    },
                }
            },
        }
    } else {
        spec_scan2(lines, i + 1, groups, tbl)
    }
}

#[via_fn]
proof fn spec_scan2_dec(lines: Seq<Seq<char>>, i: int, groups: Seq<GroupVal>, tbl: Seq<(String, i32)>) {
    if 0 <= i < lines.len() && spec_contains(lines[i], spec_marker2()) {
        lemma_hdr(lines, i + 1, 0, 0);
        match spec_hdr(lines, i + 1, 0, 0) {
            Ok(h) => {
                let start0 = if h.0 == 2 {
                    h.1 + 2
                } else {
                    h.1
                };
                let start = if start0 <= lines.len() {
                    start0
                } else {
                    lines.len() as int
                };
                lemma_row_end(lines, start);
            },
            Err(_) => {},
        }
    }
}

/// What the whole parse yields for the content and table.
pub open spec fn spec_parse(content: Seq<char>, tbl: Seq<(String, i32)>) -> Result<
    Seq<GroupVal>,
    ParseError,
> {
    let lines = spec_lines(content);
    let first: Seq<char> = if lines.len() > 0 {
        lines[0]
    } else {
        Seq::empty()
    };
    match spec_version(first) {
        None => Err(ParseError { line: 1, kind: ErrorKind::InvalidVersion }),
        Some(v) => {
            if v < 2_000_000 {
                Ok(spec_scan1(lines, 0, seq![]))
            } else {
                spec_scan2(lines, 0, seq![], tbl)
            }
        },
    }
}

/// The numbered coordinate node of one set within its group.
pub open spec fn set_matches(c: Node, coords: CoordsVal, k: int) -> bool {
    &&& c.name@ == "Set#"@ + spec_digits(k + 1)
    &&& c.kind@ == "mircmd:chemistry:atomic_coordinates"@
    &&& spec_dec_coords(c.data@) == Some(coords)
    &&& coords.wf()
    &&& c.children.len() == 0
}

/// One molecule grouping node with its numbered sets.
pub open spec fn group_matches(c: Node, g: GroupVal) -> bool {
    &&& c.name@ == g.name
    &&& c.kind@ == "mircmd:chemistry:molecule"@
    &&& c.data@.len() == 0
    &&& c.children.len() == g.sets.len()
    &&& forall|k: int| 0 <= k < g.sets.len() ==> set_matches(#[trigger] c.children[k], g.sets[k], k)
}

/// The container node with one child per molecule group, in first-seen
/// order.
pub open spec fn spec_node_matches(n: Node, fname: Seq<char>, groups: Seq<GroupVal>) -> bool {
    &&& n.name@ == fname
    &&& n.kind@ == "mircmd:chemistry:unex"@
    &&& n.data@.len() == 0
    &&& n.children.len() == groups.len()
    &&& forall|j: int| 0 <= j < groups.len() ==> group_matches(#[trigger] n.children[j], groups[j])
}

/// Finds the group node with this name, if one was filed already.
fn find_group(groups: &Vec<Node>, name: &[char], Ghost(ggroups): Ghost<Seq<GroupVal>>) -> (r: usize)
    requires
        groups@.len() == ggroups.len(),
        forall|j: int| 0 <= j < ggroups.len() ==> (#[trigger] groups@[j]).name@ == ggroups[j].name,
    ensures
        r as int == group_idx(ggroups, name@),
        r <= groups@.len(),
{
    let n = groups.len();
    let mut j: usize = 0;
    proof {
        lemma_group_idx(ggroups, name@);
    }
    while j < n
        invariant
            j <= n,
            n == ggroups.len(),
            groups@.len() == ggroups.len(),
            forall|p: int|
                0 <= p < ggroups.len() ==> (#[trigger] groups@[p]).name@ == ggroups[p].name,
            0 <= group_idx(ggroups, name@) <= ggroups.len(),
            group_idx(ggroups, name@) < ggroups.len() ==> ggroups[group_idx(ggroups, name@)].name
                == name@,
            forall|p: int|
                0 <= p < group_idx(ggroups, name@) ==> (#[trigger] ggroups[p]).name != name@,
            forall|p: int| 0 <= p < j ==> (#[trigger] ggroups[p]).name != name@,
        decreases n - j,
    {
        if str_eq_chars(groups[j].name.as_str(), name) {
            proof {
                assert(ggroups[j as int].name == name@);
                assert(group_idx(ggroups, name@) == j as int) by {
                    if group_idx(ggroups, name@) < j as int {
                        assert(ggroups[group_idx(ggroups, name@)].name == name@);
                    }
                    if group_idx(ggroups, name@) > j as int {
                        assert(ggroups[j as int].name != name@);
                    }
                }
            }
            return j;
        }
        j += 1;
    }
    proof {
        if group_idx(ggroups, name@) < ggroups.len() {
            assert(ggroups[group_idx(ggroups, name@)].name == name@);
        }
    }
    n
}

/// Files one numbered set node under its group, first seen first.
fn file_set(
    groups: &mut Vec<Node>,
    name: Vec<char>,
    coords: AtomicCoordinates,
    Ghost(ggroups): Ghost<Seq<GroupVal>>,
) -> (gout: Ghost<Seq<GroupVal>>)
    requires
        old(groups)@.len() == ggroups.len(),
        forall|j: int| 0 <= j < ggroups.len() ==> group_matches(#[trigger] old(groups)@[j], ggroups[j]),
        forall|j: int| 0 <= j < ggroups.len() ==> (#[trigger] ggroups[j]).sets.len() < usize::MAX,
        coords@.wf(),
    ensures
        gout@ == add_set(ggroups, name@, coords@),
        final(groups)@.len() == gout@.len(),
        forall|j: int|
            0 <= j < gout@.len() ==> group_matches(#[trigger] final(groups)@[j], gout@[j]),
        forall|j: int|
            0 <= j < gout@.len() ==> (#[trigger] gout@[j]).sets.len() <= (if j < ggroups.len() {
                ggroups[j].sets.len() + 1
            } else {
                1
            }),
{
    proof {
        lemma_group_idx(ggroups, name@);
    }
    let gi = find_group(groups, name.as_slice(), Ghost(ggroups));
    let count: usize = if gi < groups.len() {
        groups[gi].children.len()
    } else {
        0
    };
    let _clen = coords.len();
    let data = encode_coords(&coords);
    proof {
        crate::codec::lemma_coords_round_trip(coords@);
    }
    let mut set_name = String::from_str("Set#");
    let digits = digits_string(count + 1);
    set_name.append(digits.as_str());
    let child = Node {
        name: set_name,
        kind: crate::model::kind_atomic_coordinates(),
        data,
        children: Vec::new(),
    };
    if gi == groups.len() {
        let mut set_children: Vec<Node> = Vec::new();
        set_children.push(child);
        let gnode = Node {
            name: chars_to_string(name.as_slice()),
            kind: crate::model::kind_molecule(),
            data: Vec::new(),
            children: set_children,
        };
        let ghost gout = add_set(ggroups, name@, coords@);
        groups.push(gnode);
        proof {
            assert(groups@[ggroups.len() as int].data@ =~= Seq::<u8>::empty());
            assert(group_matches(groups@[ggroups.len() as int], gout[ggroups.len() as int]));
        }
        Ghost(gout)
    } else {
        let mut g = groups.remove(gi);
        g.children.push(child);
        let ghost gnew = GroupVal {
            name: ggroups[gi as int].name,
            sets: ggroups[gi as int].sets.push(coords@),
        };
        groups.insert(gi, g);
        let ghost gout = add_set(ggroups, name@, coords@);
        proof {
            assert(groups@ =~= old(groups)@.update(gi as int, groups@[gi as int]));
            assert(gout =~= ggroups.update(gi as int, gnew));
            assert(group_matches(groups@[gi as int], gnew)) by {
                assert(forall|k: int|
                    0 <= k < ggroups[gi as int].sets.len() ==> set_matches(
                        #[trigger] groups@[gi as int].children[k],
                        gnew.sets[k],
                        k,
                    ));
                assert(set_matches(
                    groups@[gi as int].children[gnew.sets.len() - 1],
                    coords@,
                    gnew.sets.len() - 1,
                ));
            }
        }
        Ghost(gout)
    }
}

/// Reads one table in the program's own layout; returns the block and the
/// first line past the table.
fn rows_u(lines: &Vec<Vec<char>>, start: usize) -> (r: (AtomicCoordinates, usize))
    requires
        start <= lines@.len(),
    ensures
        r.0@ == spec_rows_u(lines.deep_view(), start as int, CoordsVal::empty()),
        r.0@.wf(),
        r.1 as int == spec_row_end(lines.deep_view(), start as int),
        start <= r.1 <= lines@.len(),
{
    let ghost ld = lines.deep_view();
    let nlines = lines.len();
    let dashes = to_chars("--");
    let mut coords = AtomicCoordinates::new();
    let mut j = start;
    let mut ended = false;
    proof {
        lemma_row_end(ld, start as int);
    }
    while j < nlines && !ended
        invariant
            start <= j <= nlines,
            nlines == ld.len(),
            lines.deep_view() == ld,
            dashes@ == "--"@,
            coords@.wf(),
            !ended ==> spec_rows_u(ld, start as int, CoordsVal::empty()) == spec_rows_u(
                ld,
                j as int,
                coords@,
            ),
            !ended ==> spec_row_end(ld, start as int) == spec_row_end(ld, j as int),
            ended ==> spec_rows_u(ld, start as int, CoordsVal::empty()) == coords@,
            ended ==> spec_row_end(ld, start as int) == j as int,
        decreases nlines - j + (if ended {
            0int
        } else {
            1int
        }),
    {
        proof {
            assert(ld[j as int] == lines@[j as int]@);
        }
        if contains(lines[j].as_slice(), dashes.as_slice()) {
            ended = true;
            j += 1;
        } else {
            let toks = tokens(lines[j].as_slice());
            let ghost gtoks = spec_tokens(ld[j as int]);
            proof {
                assert(toks.deep_view() == gtoks);
                assert(toks@.len() == gtoks.len());
            }
            if toks.len() >= 7 {
                proof {
                    assert(toks.deep_view()[2] == toks@[2]@);
                    assert(toks.deep_view()[4] == toks@[4]@);
                    assert(toks.deep_view()[5] == toks@[5]@);
                    assert(toks.deep_view()[6] == toks@[6]@);
                }
                let num = parse_i32(toks[2].as_slice());
                let x = parse_real(toks[4].as_slice());
                let y = parse_real(toks[5].as_slice());
                let z = parse_real(toks[6].as_slice());
                if num.is_some() && x.is_some() && y.is_some() && z.is_some() {
                    coords.push_atom(num.unwrap(), x.unwrap(), y.unwrap(), z.unwrap());
                }
            }
            j += 1;
        }
    }
    proof {
        if !ended {
            assert(spec_rows_u(ld, j as int, coords@) == coords@);
            assert(spec_row_end(ld, j as int) == j as int);
        }
    }
    (coords, j)
}

/// Reads one table in the interchange layout; unresolved symbols and bad
/// coordinates are hard errors.
fn rows_mol(lines: &Vec<Vec<char>>, start: usize, table: &PeriodicTable) -> (r: Result<
    (AtomicCoordinates, usize),
    ParseError,
>)
    requires
        start <= lines@.len(),
    ensures
        r is Ok <==> spec_rows_mol(lines.deep_view(), start as int, CoordsVal::empty(), table.entries@) is Ok,
        r matches Ok(v) ==> spec_rows_mol(
            lines.deep_view(),
            start as int,
            CoordsVal::empty(),
            table.entries@,
        ) == Result::<CoordsVal, ParseError>::Ok(v.0@) && v.0@.wf() && v.1 as int == spec_row_end(
            lines.deep_view(),
            start as int,
        ) && start <= v.1 <= lines@.len(),
        r matches Err(e) ==> spec_rows_mol(
            lines.deep_view(),
            start as int,
            CoordsVal::empty(),
            table.entries@,
        ) == Result::<CoordsVal, ParseError>::Err(e),
{
    let ghost ld = lines.deep_view();
    let ghost tbl = table.entries@;
    let nlines = lines.len();
    let dashes = to_chars("--");
    let mut coords = AtomicCoordinates::new();
    let mut j = start;
    let mut ended = false;
    proof {
        lemma_row_end(ld, start as int);
    }
    while j < nlines && !ended
        invariant
            start <= j <= nlines,
            nlines == ld.len(),
            lines.deep_view() == ld,
            tbl == table.entries@,
            dashes@ == "--"@,
            coords@.wf(),
            !ended ==> spec_rows_mol(ld, start as int, CoordsVal::empty(), tbl) == spec_rows_mol(
                ld,
                j as int,
                coords@,
                tbl,
            ),
            !ended ==> spec_row_end(ld, start as int) == spec_row_end(ld, j as int),
            ended ==> spec_rows_mol(ld, start as int, CoordsVal::empty(), tbl) == Result::<
                CoordsVal,
                ParseError,
            >::Ok(coords@),
            ended ==> spec_row_end(ld, start as int) == j as int,
        decreases nlines - j + (if ended {
            0int
        } else {
            1int
        }),
    {
        proof {
            assert(ld[j as int] == lines@[j as int]@);
        }
        if contains(lines[j].as_slice(), dashes.as_slice()) {
            ended = true;
            j += 1;
        } else {
            let toks = tokens(lines[j].as_slice());
            let ghost gtoks = spec_tokens(ld[j as int]);
            proof {
                assert(toks.deep_view() == gtoks);
                assert(toks@.len() == gtoks.len());
            }
            if toks.len() >= 4 {
                proof {
                    assert(toks.deep_view()[0] == toks@[0]@);
                    assert(toks.deep_view()[1] == toks@[1]@);
                    assert(toks.deep_view()[2] == toks@[2]@);
                    assert(toks.deep_view()[3] == toks@[3]@);
                }
                let num: i32 = if str_eq_chars("X", toks[0].as_slice()) {
                    proof {
                        reveal_strlit("X");
                        assert("X"@ =~= seq!['X']);
                    }
                    -1
                } else {
                    proof {
                        reveal_strlit("X");
                        assert("X"@ =~= seq!['X']);
                    }
                    match table.lookup_chars(toks[0].as_slice()) {
                        Some(v) => v,
                        None => {
                            return Err(
                                ParseError { line: j + 1, kind: ErrorKind::UnknownElement },
                            );
                        },
                    }
                };
                let x = match parse_real(toks[1].as_slice()) {
                    Some(v) => v,
                    None => {
                        return Err(ParseError { line: j + 1, kind: ErrorKind::InvalidCoordinate });
                    },
                };
                let y = match parse_real(toks[2].as_slice()) {
                    Some(v) => v,
                    None => {
                        return Err(ParseError { line: j + 1, kind: ErrorKind::InvalidCoordinate });
                    },
                };
                let z = match parse_real(toks[3].as_slice()) {
                    Some(v) => v,
                    None => {
                        return Err(ParseError { line: j + 1, kind: ErrorKind::InvalidCoordinate });
                    },
                };
                coords.push_atom(num, x, y, z);
            }
            j += 1;
        }
    }
    proof {
        if !ended {
            assert(spec_rows_mol(ld, j as int, coords@, tbl) == Result::<
                CoordsVal,
                ParseError,
            >::Ok(coords@));
            assert(spec_row_end(ld, j as int) == j as int);
        }
    }
    Ok((coords, j))
}

/// Reads the block header of the newer layout to find the declared
/// sub-format and the first table line.
fn parse_hdr(lines: &Vec<Vec<char>>, start: usize) -> (r: Result<(u8, usize), ParseError>)
    requires
        start <= lines@.len(),
    ensures
        r is Ok <==> spec_hdr(lines.deep_view(), start as int, 0, 0) is Ok,
        r matches Ok(h) ==> spec_hdr(lines.deep_view(), start as int, 0, 0) == Result::<
            (int, int),
            ParseError,
        >::Ok((h.0 as int, h.1 as int)) && start <= h.1 <= lines@.len() && h.0 <= 2,
        r matches Err(e) ==> spec_hdr(lines.deep_view(), start as int, 0, 0) == Result::<
            (int, int),
            ParseError,
        >::Err(e),
{
    let ghost ld = lines.deep_view();
    let nlines = lines.len();
    let fmt_tag = to_chars("Format:");
    let dashes = to_chars("--");
    let mut fmt: u8 = 0;
    let mut dcount: u8 = 0;
    let mut hi = start;
    while hi < nlines
        invariant
            start <= hi <= nlines,
            nlines == ld.len(),
            lines.deep_view() == ld,
            fmt_tag@ == "Format:"@,
            dashes@ == "--"@,
            fmt <= 2,
            dcount <= 1,
            spec_hdr(ld, start as int, 0, 0) == spec_hdr(ld, hi as int, fmt as int, dcount as int),
        decreases nlines - hi,
    {
        proof {
            assert(ld[hi as int] == lines@[hi as int]@);
        }
        if contains(lines[hi].as_slice(), fmt_tag.as_slice()) {
            let ft = tokens(lines[hi].as_slice());
            proof {
                assert(ft.deep_view().len() == ft@.len());
            }
            if ft.len() >= 2 {
                proof {
                    assert(ft.deep_view()[1] == ft@[1]@);
                    reveal_strlit("UNEX");
                    reveal_strlit("MOL");
                }
                if str_eq_chars("UNEX", ft[1].as_slice()) {
                    fmt = 1;
                } else if str_eq_chars("MOL", ft[1].as_slice()) {
                    fmt = 2;
                } else {
                    return Err(ParseError { line: hi + 1, kind: ErrorKind::UnknownSubFormat });
                }
            }
            hi += 1;
        } else if contains(lines[hi].as_slice(), dashes.as_slice()) {
            if fmt == 1 {
                if dcount == 1 {
                    return Ok((fmt, hi + 1));
                }
                dcount += 1;
                hi += 1;
            } else {
                return Ok((fmt, hi + 1));
            }
        } else {
            hi += 1;
        }
    }
    Ok((fmt, hi))
}

/// Walks the content in the older layout and builds the group nodes.
fn parse_unex1x(lines: &Vec<Vec<char>>, file_name: &str) -> (r: Node)
    ensures
        spec_node_matches(r, file_name@, spec_scan1(lines.deep_view(), 0, seq![])),
{
    let ghost ld = lines.deep_view();
    let nlines = lines.len();
    let marker = to_chars("> Cartesian coordinates of all atoms (Angstroms) in");
    let mut groups: Vec<Node> = Vec::new();
    let ghost mut ggroups: Seq<GroupVal> = seq![];
    let mut i: usize = 0;
    proof {
        assert(nlines == ld.len());
    }
    while i < nlines
        invariant
            i <= nlines,
            nlines == ld.len(),
            lines.deep_view() == ld,
            marker@ == spec_marker1(),
            spec_scan1(ld, 0, seq![]) == spec_scan1(ld, i as int, ggroups),
            groups@.len() == ggroups.len(),
            forall|j: int|
                0 <= j < ggroups.len() ==> group_matches(#[trigger] groups@[j], ggroups[j]),
            forall|j: int| 0 <= j < ggroups.len() ==> (#[trigger] ggroups[j]).sets.len() <= i,
        decreases nlines - i,
    {
        proof {
            assert(ld[i as int] == lines@[i as int]@);
        }
        if contains(lines[i].as_slice(), marker.as_slice()) {
            let line = &lines[i];
            let gtpos = find_char(line.as_slice(), 0, '>');
            let prefix = vstd::slice::slice_subrange(line.as_slice(), 0, gtpos);
            proof {
                assert(prefix@ =~= ld[i as int].take(gtpos as int));
            }
            let name = trim(prefix);
            let j0: usize = if nlines - i > 4 {
                i + 4
            } else {
                nlines
            };
            let (coords, jend) = rows_u(lines, j0);
            let gr = file_set(&mut groups, name, coords, Ghost(ggroups));
            proof {
                ggroups = gr@;
            }
            i = jend;
        } else {
            i += 1;
        }
    }
    let _flen = file_name.unicode_len();
    proof {
        assert(spec_scan1(ld, 0, seq![]) == ggroups);
    }
    let node = Node {
        name: file_name.to_owned(),
        kind: crate::model::kind_unex(),
        data: Vec::new(),
        children: groups,
    };
    proof {
        assert(node.data@ =~= Seq::<u8>::empty());
    }
    node
}

/// Walks the content in the newer layout and builds the group nodes.
#[verifier::rlimit(100)]
#[verifier::spinoff_prover]
fn parse_unex2x(lines: &Vec<Vec<char>>, file_name: &str, table: &PeriodicTable) -> (r: Result<
    Node,
    ParseError,
>)
    ensures
        r is Ok <==> spec_scan2(lines.deep_view(), 0, seq![], table.entries@) is Ok,
        r matches Err(e) ==> spec_scan2(lines.deep_view(), 0, seq![], table.entries@) == Result::<
            Seq<GroupVal>,
            ParseError,
        >::Err(e),
        r matches Ok(node) ==> spec_node_matches(
            node,
            file_name@,
            spec_scan2(lines.deep_view(), 0, seq![], table.entries@)->Ok_0,
        ),
{
    let ghost ld = lines.deep_view();
    let ghost tbl = table.entries@;
    let nlines = lines.len();
    let marker = to_chars("Cartesian coordinates (Angstroms) of atoms in");
    let mut groups: Vec<Node> = Vec::new();
    let ghost mut ggroups: Seq<GroupVal> = seq![];
    let mut i: usize = 0;
    proof {
        assert(nlines == ld.len());
    }
    while i < nlines
        invariant
            i <= nlines,
            nlines == ld.len(),
            lines.deep_view() == ld,
            tbl == table.entries@,
            marker@ == spec_marker2(),
            spec_scan2(ld, 0, seq![], tbl) == spec_scan2(ld, i as int, ggroups, tbl),
            groups@.len() == ggroups.len(),
            forall|j: int|
                0 <= j < ggroups.len() ==> group_matches(#[trigger] groups@[j], ggroups[j]),
            forall|j: int| 0 <= j < ggroups.len() ==> (#[trigger] ggroups[j]).sets.len() <= i,
        decreases nlines - i,
    {
        proof {
            assert(ld[i as int] == lines@[i as int]@);
        }
        if contains(lines[i].as_slice(), marker.as_slice()) {
            let ntoks = tokens(lines[i].as_slice());
            proof {
                assert(ntoks.deep_view().len() == ntoks@.len());
            }
            let name: Vec<char> = if ntoks.len() > 6 {
                proof {
                    assert(ntoks.deep_view()[6] == ntoks@[6]@);
                }
                vstd::slice::slice_to_vec(ntoks[6].as_slice())
            } else {
                to_chars("unknown")
            };
            proof {
                assert(name@ == spec_name2(ld[i as int]));
            }
            let h = match parse_hdr(lines, i + 1) {
                Ok(h) => h,
                Err(e) => {
                    return Err(e);
                },
            };
            let rstart: usize = if h.0 == 2 {
                if nlines - h.1 > 2 {
                    h.1 + 2
                } else {
                    nlines
                }
            } else {
                h.1
            };
            let cj: (AtomicCoordinates, usize) = if h.0 == 1 {
                rows_u(lines, rstart)
            } else if h.0 == 2 {
                match rows_mol(lines, rstart, table) {
                    Ok(v) => v,
                    Err(e) => {
                        return Err(e);
                    },
                }
            } else {
                let (_skipped, jend) = rows_u(lines, rstart);
                (AtomicCoordinates::new(), jend)
            };
            let (coords, jend) = cj;
            let gr = file_set(&mut groups, name, coords, Ghost(ggroups));
            proof {
                ggroups = gr@;
            }
            i = jend;
        } else {
            i += 1;
        }
    }
    let _flen = file_name.unicode_len();
    proof {
        assert(spec_scan2(ld, 0, seq![], tbl) == Result::<Seq<GroupVal>, ParseError>::Ok(ggroups));
    }
    let node = Node {
        name: file_name.to_owned(),
        kind: crate::model::kind_unex(),
        data: Vec::new(),
        children: groups,
    };
    proof {
        assert(node.data@ =~= Seq::<u8>::empty());
    }
    Ok(node)
}

/// Parses UNEX content: the declared version picks the layout.
pub fn parse(content: &str, file_name: &str, table: &PeriodicTable) -> (r: Result<Node, ParseError>)
    ensures
        r is Ok <==> spec_parse(content@, table.entries@) is Ok,
        r matches Err(e) ==> spec_parse(content@, table.entries@) == Result::<
            Seq<GroupVal>,
            ParseError,
        >::Err(e),
        r matches Ok(node) ==> spec_node_matches(
            node,
            file_name@,
            spec_parse(content@, table.entries@)->Ok_0,
        ),
{
    let cs = to_chars(content);
    let lines = split_lines(cs.as_slice());
    let ghost ld = lines.deep_view();
    let version: Option<u64> = if lines.len() > 0 {
        proof {
            assert(ld[0] == lines@[0]@);
        }
        get_format_version(lines[0].as_slice())
    } else {
        let empty_line: Vec<char> = Vec::new();
        proof {
            assert(empty_line@ =~= Seq::<char>::empty());
        }
        get_format_version(empty_line.as_slice())
    };
    let v = match version {
        Some(v) => v,
        None => {
            return Err(ParseError { line: 1, kind: ErrorKind::InvalidVersion });
        },
    };
    if v < 2_000_000 {
        Ok(parse_unex1x(&lines, file_name))
    } else {
        parse_unex2x(&lines, file_name, table)
    }
}

} // verus!

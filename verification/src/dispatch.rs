//! The format dispatcher: an ordered registry of recognizers and parsers.
//!
//! Every recognizer is tried in registration order; the first format that
//! both recognizes and parses the content wins. A format that recognizes
//! the content but fails to parse it does not stop the walk: the error is
//! recorded and the next format is tried. Only when every format has been
//! tried does the dispatcher fail, reporting every attempt.

use vstd::prelude::*;
use vstd::string::*;
use crate::errors::ParseError;
use crate::model::Node;
use crate::parsers::{cfour, cube, mdlmol2000, unex, xyz};
use crate::table::PeriodicTable;

verus! {

/// The closed set of known formats, in registration order.
#[derive(Clone, Copy, Debug, PartialEq, Eq, Structural)]
pub enum Format {
    Xyz,
    Cube,
    Unex,
    Cfour,
    MdlMolV2000,
}

/// The registry: every format, in the order recognizers are tried.
pub open spec fn spec_registry() -> Seq<Format> {
    seq![Format::Xyz, Format::Cube, Format::Unex, Format::Cfour, Format::MdlMolV2000]
}

/// The display name of a format.
pub open spec fn spec_format_name(f: Format) -> Seq<char> {
    match f {
        Format::Xyz => "XYZ"@,
        Format::Cube => "Gaussian Cube"@,
        Format::Unex => "UNEX"@,
        Format::Cfour => "Cfour"@,
        Format::MdlMolV2000 => "MDL Mol V2000"@,
    }
}

/// The display name of a format.
pub fn format_name(f: Format) -> (r: String)
    ensures
        r@ == spec_format_name(f),
{
    match f {
        Format::Xyz => String::from_str("XYZ"),
        Format::Cube => String::from_str("Gaussian Cube"),
        Format::Unex => String::from_str("UNEX"),
        Format::Cfour => String::from_str("Cfour"),
        Format::MdlMolV2000 => String::from_str("MDL Mol V2000"),
    }
}

/// What a format's recognizer says of the content.
pub open spec fn spec_recognize(f: Format, content: Seq<char>) -> bool {
    match f {
        Format::Xyz => xyz::spec_test(content),
        Format::Cube => cube::spec_test(content),
        Format::Unex => unex::spec_test(content),
        Format::Cfour => cfour::spec_test(content),
        Format::MdlMolV2000 => mdlmol2000::spec_test(content),
    }
}

/// Whether a format's parser accepts the content.
pub open spec fn spec_parse_ok(f: Format, content: Seq<char>, tbl: Seq<(String, i32)>) -> bool {
    match f {
        Format::Xyz => xyz::spec_parse(content, tbl) is Ok,
        Format::Cube => cube::spec_parse(crate::text::spec_lines(content)) is Ok,
        Format::Unex => unex::spec_parse(content, tbl) is Ok,
        Format::Cfour => true,
        Format::MdlMolV2000 => mdlmol2000::spec_parse(content, tbl) is Ok,
    }
}

/// The error a format's parser reports on the content, when it fails.
pub open spec fn spec_parse_err(f: Format, content: Seq<char>, tbl: Seq<(String, i32)>) -> ParseError {
    match f {
        Format::Xyz => xyz::spec_parse(content, tbl)->Err_0,
        Format::Cube => cube::spec_parse(crate::text::spec_lines(content))->Err_0,
        Format::Unex => unex::spec_parse(content, tbl)->Err_0,
        Format::Cfour => ParseError { line: 0, kind: crate::errors::ErrorKind::UnexpectedEnd },
        Format::MdlMolV2000 => mdlmol2000::spec_parse(content, tbl)->Err_0,
    }
}

/// The node a format's parser must deliver on this content and table.
pub open spec fn spec_node_ok(
    f: Format,
    node: Node,
    fname: Seq<char>,
    content: Seq<char>,
    tbl: Seq<(String, i32)>,
) -> bool {
    match f {
        Format::Xyz => xyz::spec_node_matches(node, fname, xyz::spec_parse(content, tbl)->Ok_0),
        Format::Cube => cube::spec_node_matches(
            node,
            fname,
            cube::spec_parse(crate::text::spec_lines(content))->Ok_0,
        ),
        Format::Unex => unex::spec_node_matches(node, fname, unex::spec_parse(content, tbl)->Ok_0),
        Format::Cfour => cfour::spec_node_matches(node, fname, cfour::spec_parse(content)),
        Format::MdlMolV2000 => mdlmol2000::spec_node_matches(
            node,
            fname,
            mdlmol2000::spec_parse(content, tbl)->Ok_0,
        ),
    }
}

/// How one format's attempt ended: its recognizer declined, or its parser
/// failed with an error.
#[derive(Clone, Copy, Debug, PartialEq, Eq, Structural)]
pub enum AttemptOutcome {
    NotRecognized,
    Failed(ParseError),
}

/// One record of the aggregate error: the format's name and its outcome.
#[derive(Debug)]
pub struct Attempt {
    pub format: String,
    pub outcome: AttemptOutcome,
}

/// What dispatch from registry position `k` on yields: the position of the
/// winning format, or one attempt record per remaining format.
pub open spec fn spec_dispatch(content: Seq<char>, tbl: Seq<(String, i32)>, k: int) -> Result<
    int,
    Seq<(Seq<char>, AttemptOutcome)>,
>
    decreases spec_registry().len() - k,
    when 0 <= k
{
    if k >= spec_registry().len() {
        Err(seq![])
    } else {
        let f = spec_registry()[k];
        let rest = spec_dispatch(content, tbl, k + 1);
        if spec_recognize(f, content) {
            if spec_parse_ok(f, content, tbl) {
                Ok(k)
            } else {
                match rest {
                    Ok(j) => Ok(j),
                    Err(tail) => Err(
                        seq![
                            (
                                spec_format_name(f),
                                AttemptOutcome::Failed(spec_parse_err(f, content, tbl)),
                            ),
                        ] + tail,
                    ),
                }
            }
        } else {
            match rest {
                Ok(j) => Ok(j),
                Err(tail) => Err(seq![(spec_format_name(f), AttemptOutcome::NotRecognized)] + tail),
            }
        }
    }
}

/// The attempt records agree with their description, record by record.
pub open spec fn attempts_match(v: Seq<Attempt>, s: Seq<(Seq<char>, AttemptOutcome)>) -> bool {
    v.len() == s.len() && forall|j: int|
        0 <= j < s.len() ==> (#[trigger] v[j]).format@ == s[j].0 && v[j].outcome == s[j].1
}

/// When every format is exhausted, the aggregate error names every
/// registered format, in registration order, with its own outcome.
pub proof fn lemma_dispatch_names(content: Seq<char>, tbl: Seq<(String, i32)>, k: int)
    requires
        0 <= k <= spec_registry().len(),
        spec_dispatch(content, tbl, k) is Err,
    ensures
        spec_dispatch(content, tbl, k)->Err_0.len() == spec_registry().len() - k,
        forall|j: int|
            0 <= j < spec_registry().len() - k ==> (#[trigger] spec_dispatch(content, tbl, k)->Err_0[j]).0
                == spec_format_name(spec_registry()[k + j]),
    decreases spec_registry().len() - k,
{
    if k < spec_registry().len() {
        lemma_dispatch_names(content, tbl, k + 1);
    }
}

/// Recognition has no hidden state: any two answers that a recognizer's
/// contract allows on the same content are the same boolean.
pub proof fn lemma_test_idempotent(f: Format, content: Seq<char>, r1: bool, r2: bool)
    requires
        r1 == spec_recognize(f, content),
        r2 == spec_recognize(f, content),
    ensures
        r1 == r2,
{
}

/// One format's parse attempt on content already in memory.
fn run_parser(f: Format, content: &str, file_name: &str, table: &PeriodicTable) -> (r: Result<
    Node,
    ParseError,
>)
    ensures
        r is Ok <==> spec_parse_ok(f, content@, table.entries@),
        r matches Err(e) ==> e == spec_parse_err(f, content@, table.entries@),
        r matches Ok(node) ==> spec_node_ok(f, node, file_name@, content@, table.entries@),
{
    match f {
        Format::Xyz => xyz::parse(content, file_name, table),
        Format::Cube => cube::parse(content, file_name),
        Format::Unex => unex::parse(content, file_name, table),
        Format::Cfour => cfour::parse(content, file_name),
        Format::MdlMolV2000 => mdlmol2000::parse(content, file_name, table),
    }
}

/// One format's recognizer on content already in memory.
fn run_test(f: Format, content: &str) -> (r: bool)
    ensures
        r == spec_recognize(f, content@),
{
    match f {
        Format::Xyz => xyz::test(content),
        Format::Cube => cube::test(content),
        Format::Unex => unex::test(content),
        Format::Cfour => cfour::test(content),
        Format::MdlMolV2000 => mdlmol2000::test(content),
    }
}

/// Loads content of an unknown format: tries every registered format in
/// order, returns the first successful parse, and otherwise reports every
/// attempt with its outcome.
#[verifier::rlimit(100)]
#[verifier::spinoff_prover]
pub fn load(content: &str, file_name: &str, table: &PeriodicTable) -> (r: Result<
    Node,
    Vec<Attempt>,
>)
    ensures
        r is Ok <==> spec_dispatch(content@, table.entries@, 0) is Ok,
        r matches Ok(node) ==> spec_node_ok(
            spec_registry()[spec_dispatch(content@, table.entries@, 0)->Ok_0],
            node,
            file_name@,
            content@,
            table.entries@,
        ),
        r matches Err(attempts) ==> attempts_match(
            attempts@,
            spec_dispatch(content@, table.entries@, 0)->Err_0,
        ),
{
    let ghost tbl = table.entries@;
    let formats: [Format; 5] = [
        Format::Xyz,
        Format::Cube,
        Format::Unex,
        Format::Cfour,
        Format::MdlMolV2000,
    ];
    let mut attempts: Vec<Attempt> = Vec::new();
    let mut k: usize = 0;
    while k < 5
        invariant
            k <= 5,
            tbl == table.entries@,
            formats@ == spec_registry(),
            attempts@.len() == k,
            spec_dispatch(content@, tbl, k as int) is Ok ==> spec_dispatch(content@, tbl, 0)
                == spec_dispatch(content@, tbl, k as int),
            spec_dispatch(content@, tbl, k as int) is Err ==> spec_dispatch(content@, tbl, 0) is Err
                && spec_dispatch(content@, tbl, 0)->Err_0 == attempts_desc(attempts@)
                + spec_dispatch(content@, tbl, k as int)->Err_0,
            forall|j: int|
                0 <= j < k ==> (#[trigger] attempts@[j]).format@ == attempts_desc(attempts@)[j].0
                    && attempts@[j].outcome == attempts_desc(attempts@)[j].1,
        decreases 5 - k,
    {
        let f = formats[k];
        proof {
            assert(formats@[k as int] == spec_registry()[k as int]);
        }
        if run_test(f, content) {
            match run_parser(f, content, file_name, table) {
                Ok(node) => {
                    proof {
                        assert(spec_dispatch(content@, tbl, k as int) == Result::<
                            int,
                            Seq<(Seq<char>, AttemptOutcome)>,
                        >::Ok(k as int));
                    }
                    return Ok(node);
                },
                Err(e) => {
                    attempts.push(Attempt { format: format_name(f), outcome: AttemptOutcome::Failed(e) });
                },
            }
        } else {
            attempts.push(
                Attempt { format: format_name(f), outcome: AttemptOutcome::NotRecognized },
            );
        }
        k += 1;
        proof {
            assert(attempts_desc(attempts@) =~= attempts_desc(attempts@.drop_last()).push(
                (attempts@.last().format@, attempts@.last().outcome),
            ));
        }
    }
    proof {
        assert(spec_dispatch(content@, tbl, 5) == Result::<
            int,
            Seq<(Seq<char>, AttemptOutcome)>,
        >::Err(Seq::empty()));
        assert(spec_dispatch(content@, tbl, 0)->Err_0 =~= attempts_desc(attempts@));
        assert(attempts_match(attempts@, spec_dispatch(content@, tbl, 0)->Err_0));
    }
    Err(attempts)
}

/// The description of the attempt records made so far.
pub open spec fn attempts_desc(v: Seq<Attempt>) -> Seq<(Seq<char>, AttemptOutcome)> {
    Seq::new(v.len(), |j: int| (v[j].format@, v[j].outcome))
}

} // verus!

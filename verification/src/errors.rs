//! Structured parse errors.
//!
//! Every structural violation carries the 1-based line number where it was
//! found (`0` where no single line is to blame) and the unmet expectation.

use vstd::prelude::*;

verus! {

/// The unmet expectation of a failed parse.
#[derive(Clone, Copy, Debug, PartialEq, Eq, Structural)]
pub enum ErrorKind {
    /// A line that had to give the number of atoms did not.
    ExpectedAtomCount,
    /// A declared atom count of zero.
    ZeroAtoms,
    /// A coordinate card with too few fields.
    InvalidAtomCard,
    /// An element symbol the periodic table does not resolve.
    UnknownElement,
    /// A coordinate field that is not a number.
    InvalidCoordinate,
    /// The content ended before a required line.
    UnexpectedEnd,
    /// A header line with too few fields.
    InvalidHeader,
    /// More than one data value per voxel, which is not supported.
    UnsupportedValuesPerVoxel(i32),
    /// A grid line with too few fields.
    InvalidGridLine,
    /// A grid line whose point count is not an integer.
    InvalidGridCount,
    /// A grid line whose step vector holds a non-number.
    InvalidGridVector,
    /// An atom line whose atomic number is not an integer.
    InvalidAtomNumber,
    /// More than one identifier per voxel, which is not supported.
    UnsupportedIdsPerVoxel(i32),
    /// A volumetric data value that is not a number.
    InvalidVolumeValue,
    /// The flattened data stream does not hold one value per grid point.
    VolumeSizeMismatch { expected: usize, found: usize },
    /// A control line that had to give the number of bonds did not.
    ExpectedBondCount,
    /// A declared bond count below zero.
    NegativeBondCount,
    /// A first line that does not carry a decodable version.
    InvalidVersion,
    /// A declared coordinate sub-format that is neither known layout.
    UnknownSubFormat,
}

/// A structural parse error: the 1-based line and what was expected there.
#[derive(Clone, Copy, Debug, PartialEq, Eq, Structural)]
pub struct ParseError {
    pub line: usize,
    pub kind: ErrorKind,
}

} // verus!

//! Importer for molecular-geometry files.
//!
//! A registry of per-format recognizers and parsers (XYZ, Gaussian Cube,
//! Cfour logs, MDL Mol V2000 and the two UNEX layouts) turns flat text into a
//! tree of [`model::Node`] values whose payloads are byte-encoded
//! [`model::AtomicCoordinates`], [`model::Molecule`] and [`model::VolumeCube`]
//! records. Coordinates are kept as exact decimal numbers ([`decimal::Real`]),
//! so every parsed geometry is reproduced without rounding.

pub mod codec;
pub mod decimal;
pub mod dispatch;
pub mod errors;
pub mod model;
pub mod parsers;
pub mod picking;
pub mod strext;
pub mod table;
pub mod text;

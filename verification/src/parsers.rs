//! The per-format recognizers and parsers.

pub mod cfour;
pub mod cube;
pub mod mdlmol2000;
pub mod unex;
pub mod xyz;

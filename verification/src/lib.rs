//! NXS (Nexus Standard): a verified reader for the `.nxb` binary format,
//! the sigil-inference lattice used by the converters, and the report
//! renderers built on top of the decoder.

pub mod error;
pub mod text;
pub mod decoder;
pub mod hash;
pub mod bench;
pub mod cli;
pub mod convert;

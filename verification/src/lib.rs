//! Codec core for a hybrid text/binary point-cloud file format: a textual
//! header describing the field layout, followed by fixed-shape points encoded
//! either as whitespace-separated ASCII tokens or as packed little-endian
//! binary chunks.
//!
//! Floating-point elements are carried as their IEEE-754 bit patterns
//! (`u32` for single precision, `u64` for double precision); converting a bit
//! pattern to or from decimal text is delegated to an outside soft-float
//! library behind trusted wrappers.

pub mod coords;
pub mod dec_text;
pub mod error;
pub mod float_text;
pub mod laws;
pub mod le_bytes;
pub mod metas;
pub mod point;
pub mod record;
pub mod seq_writer;
pub mod stream;

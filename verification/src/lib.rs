//! Decoder for the NBT (Named Binary Tag) binary format.
//!
//! NBT is a self-describing, recursively nested, tagged-union serialization
//! format: a byte stream of type-tagged values, where compounds map names to
//! arbitrary tags and lists hold homogeneous sequences of tags. This crate
//! decodes such a stream into an in-memory tree and lets callers build trees
//! programmatically. Decompression of gzip/zlib containers and file access
//! sit outside the library; the decoder consumes plain bytes.

use vstd::prelude::*;

pub mod builder;
pub mod laws;
pub mod reader;
pub mod tag;
pub mod wire;

pub use builder::NbtBuilder;
pub use reader::NbtReader;
pub use tag::NbtTag;
pub use wire::Endian;
pub use wire::NbtError;

verus! {

/// How a stored NBT document is wrapped before its bytes reach the
/// decoder: gzip, zlib, or not at all. Unwrapping is done by the caller,
/// outside the library; the decoder itself consumes plain bytes.
#[derive(Clone, Copy, PartialEq, Eq, Structural, Debug)]
pub enum Compression {
    Gzip,
    Zlib,
    Uncompressed,
}

} // verus!

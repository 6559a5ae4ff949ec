use vstd::prelude::*;

pub mod checksum;
pub mod header;
pub mod image;

verus! {

/// What can go wrong while inspecting or patching a firmware image.
#[derive(Clone, Copy, Debug, PartialEq, Eq, Structural)]
pub enum DniError {
    /// A non-empty header line had no colon separator.
    MalformedField,
    /// The image held no bytes, so there is no last byte to treat as a checksum.
    EmptyImage,
    /// The encoded header would not fit the fixed 128-byte block.
    HeaderOverflow,
}

} // verus!

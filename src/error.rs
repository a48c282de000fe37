use vstd::prelude::*;

verus! {

/// What can go wrong while decoding an image.
#[derive(Clone, Copy, Debug, PartialEq, Eq, Structural)]
pub enum D88Error {
    /// A read fell short of a fixed or declared length.
    IoError,
    /// The image breaks a structural rule: a zero offset used as a pointer,
    /// a track that ends before its declared sector count, or no track at all.
    FormatError,
}

} // verus!

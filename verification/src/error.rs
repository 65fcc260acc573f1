//! What can go wrong in the codec itself.

use vstd::prelude::*;

verus! {

/// The ways an operation of the codec can fail.
#[derive(Clone, Copy, Debug, PartialEq, Eq, Structural)]
pub enum CodecError {
    /// The chunk width does not divide 8.
    InvalidChunkWidth,
    /// There are no samples to wrap the payload over.
    EmptyAudio,
}

} // verus!

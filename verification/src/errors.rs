//! Errors reported by the codec.
use vstd::prelude::*;

verus! {

/// The reasons an operation is refused.
#[derive(Debug, Copy, Clone, PartialEq, Eq, Structural)]
pub enum Error {
    TooFewShards,
    TooManyShards,
    TooFewDataShards,
    TooManyDataShards,
    TooFewParityShards,
    TooManyParityShards,
    TooFewBufferShards,
    TooManyBufferShards,
    IncorrectShardSize,
    TooFewShardsPresent,
    EmptyShard,
    InvalidShardFlags,
    InvalidIndex,
    InvalidCustomMatrix,
    UnsupportedCodecFamily,
    UnsupportedLeopardPrototype,
}

} // verus!

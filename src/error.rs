use vstd::prelude::*;

verus! {

#[verifier::external_type_specification]
#[verifier::external_body]
pub struct ExDecodeError(rmp_serde::decode::Error);

/// Errors raised by the storage layer.
#[derive(Debug)]
pub enum KvsError {
    /// An empty input where a non-empty batch is required.
    DataEmpty,
    /// The sparse-index record is not a `Put` command.
    NotMatchCmd,
    /// No framed record at the expected offset.
    KeyNotFound,
    /// Bytes that are not a run of command frames.
    Decode,
    /// An error of the MessagePack decoder, as it reported it.
    Serde(rmp_serde::decode::Error),
    /// A position that lies outside the file.
    OutOfRange,
}

/// Errors raised by the cache.
#[derive(Debug, Clone, Copy, PartialEq, Eq, Structural)]
pub enum CacheError {
    /// A cache of zero capacity was requested.
    CacheSizeOverFlow,
    /// The capacity is not a multiple of the number of shards.
    ShardingNotAlign,
    /// A value factory failed.
    Factory,
}

} // verus!

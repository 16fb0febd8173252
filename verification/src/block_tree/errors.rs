//! The ways in which reading or writing the block tree can fail.

use vstd::prelude::*;

use crate::types::data_types::{BlockHeight, CryptoHash};

verus! {

/// A variable of the block tree.
#[derive(Clone, Copy, PartialEq, Eq, Debug)]
pub enum Key {
    BlockHeight { block: CryptoHash },
    BlockJustify { block: CryptoHash },
    BlockDataHash { block: CryptoHash },
    BlockDataLength { block: CryptoHash },
    BlockData { block: CryptoHash },
    BlockAtHeight { height: BlockHeight },
    BlockChildren { block: CryptoHash },
    PendingAppStateUpdates { block: CryptoHash },
    ValidatorSetUpdatesStatus { block: CryptoHash },
    CommittedValidatorSet,
    PreviousValidatorSet,
    ValidatorSetUpdateHeight,
    ValidatorSetUpdateDecided,
    LockedPC,
    HighestViewEntered,
    HighestViewPhaseVoted,
    HighestPC,
    HighestCommittedBlock,
    NewestBlock,
    HighestTC,
}

/// Error when reading a variable.
#[derive(Clone, Copy, PartialEq, Eq, Debug)]
pub enum KVGetError {
    /// The variable should have a value and has none.
    ValueExpectedButNotFound { key: Key },
    /// The variable has a value that does not begin with an encoding of what belongs there.
    DeserializeValueError { key: Key },
}

/// Error when writing a variable.
#[derive(Clone, Copy, PartialEq, Eq, Debug)]
pub enum KVSetError {
    /// The value has too long a list in it to be encoded.
    SerializeValueError { key: Key },
}

/// Errors that may be encountered when reading or writing the block tree.
#[derive(Clone, Copy, PartialEq, Eq, Debug)]
pub enum BlockTreeError {
    /// A variable could not be read.
    KVGetError(KVGetError),
    /// A variable could not be written.
    KVSetError(KVSetError),
    /// A block that should be in the tree is not.
    BlockExpectedButNotFound { block: CryptoHash },
}

/// The error that `key` has no value.
pub open spec fn not_found(key: Key) -> BlockTreeError {
    BlockTreeError::KVGetError(KVGetError::ValueExpectedButNotFound { key })
}

/// The error that `key` has a value that cannot be read.
pub open spec fn undecodable(key: Key) -> BlockTreeError {
    BlockTreeError::KVGetError(KVGetError::DeserializeValueError { key })
}

pub(crate) fn unreadable(key: Key) -> (r: BlockTreeError)
    ensures
        r == undecodable(key),
{
    BlockTreeError::KVGetError(KVGetError::DeserializeValueError { key })
}

pub(crate) fn missing(key: Key) -> (r: BlockTreeError)
    ensures
        r == not_found(key),
{
    BlockTreeError::KVGetError(KVGetError::ValueExpectedButNotFound { key })
}

impl From<KVGetError> for BlockTreeError {
    fn from(value: KVGetError) -> (r: Self) {
        BlockTreeError::KVGetError(value)
    }
}

impl vstd::std_specs::convert::FromSpecImpl<KVGetError> for BlockTreeError {
    open spec fn obeys_from_spec() -> bool {
        true
    }

    open spec fn from_spec(value: KVGetError) -> Self {
        BlockTreeError::KVGetError(value)
    }
}

impl From<KVSetError> for BlockTreeError {
    fn from(value: KVSetError) -> (r: Self) {
        BlockTreeError::KVSetError(value)
    }
}

impl vstd::std_specs::convert::FromSpecImpl<KVSetError> for BlockTreeError {
    open spec fn obeys_from_spec() -> bool {
        true
    }

    open spec fn from_spec(value: KVSetError) -> Self {
        BlockTreeError::KVSetError(value)
    }
}

} // verus!

//! Blocks.

use vstd::prelude::*;

use crate::codec;
use crate::codec::encode_block_preimage;
use crate::hotstuff::types::PhaseCertificate;
use crate::types::crypto_primitives;
use crate::types::crypto_primitives::hash_bytes;
use crate::types::data_types::{BlockHeight, CryptoHash, Data};

verus! {

/// A block: data to be ordered, with the certificate of its parent.
#[derive(PartialEq, Eq, Debug)]
pub struct Block {
    pub height: BlockHeight,
    pub hash: CryptoHash,
    pub justify: PhaseCertificate,
    pub data_hash: CryptoHash,
    pub data: Data,
}

impl Clone for Block {
    fn clone(&self) -> (r: Self)
        ensures
            r == *self,
    {
        Block {
            height: self.height,
            hash: self.hash,
            justify: self.justify.clone(),
            data_hash: self.data_hash,
            data: self.data.clone(),
        }
    }
}

/// Whether `hash` is the hash of a block with the given header fields: the SHA-256 digest of
/// their encodings, one after another.
pub open spec fn is_block_hash(
    hash: CryptoHash,
    height: BlockHeight,
    justify: PhaseCertificate,
    data_hash: CryptoHash,
) -> bool {
    hash.bytes@ == crypto_primitives::sha256(codec::block_preimage(height, justify, data_hash))
}

/// The hash of a block with the given header fields.
pub open spec fn block_hash(
    height: BlockHeight,
    justify: PhaseCertificate,
    data_hash: CryptoHash,
) -> CryptoHash {
    choose|hash: CryptoHash| is_block_hash(hash, height, justify, data_hash)
}

/// The block with the given header fields and data.
pub open spec fn block_of(
    height: BlockHeight,
    justify: PhaseCertificate,
    data_hash: CryptoHash,
    data: Data,
) -> Block {
    Block { height, hash: block_hash(height, justify, data_hash), justify, data_hash, data }
}

/// Header fields have one hash.
pub proof fn lemma_block_hash(
    hash: CryptoHash,
    height: BlockHeight,
    justify: PhaseCertificate,
    data_hash: CryptoHash,
)
    requires
        is_block_hash(hash, height, justify, data_hash),
    ensures
        hash == block_hash(height, justify, data_hash),
{
    let chosen = block_hash(height, justify, data_hash);
    assert(is_block_hash(chosen, height, justify, data_hash));
    assert(chosen.bytes =~= hash.bytes) by {
        assert forall|i: int| 0 <= i < 32 implies chosen.bytes[i] == hash.bytes[i] by {
            assert(chosen.bytes@[i] == hash.bytes@[i]);
        }
    }
}

impl Block {
    /// Whether the block's own hash is that of its header fields.
    pub open spec fn hash_matches(&self) -> bool {
        is_block_hash(self.hash, self.height, self.justify, self.data_hash)
    }

    /// The hash of a block with the given header fields.
    pub fn hash(height: BlockHeight, justify: &PhaseCertificate, data_hash: &CryptoHash) -> (r:
        CryptoHash)
        ensures
            is_block_hash(r, height, *justify, *data_hash),
            r == block_hash(height, *justify, *data_hash),
    {
        let hash = hash_bytes(&encode_block_preimage(height, justify, data_hash));
        proof {
            lemma_block_hash(hash, height, *justify, *data_hash);
        }
        hash
    }

    /// A block with its hash computed from its header fields.
    pub fn new(
        height: BlockHeight,
        justify: PhaseCertificate,
        data_hash: CryptoHash,
        data: Data,
    ) -> (r: Block)
        ensures
            r.height == height,
            r.justify == justify,
            r.data_hash == data_hash,
            r.data == data,
            r.hash_matches(),
            r == block_of(height, justify, data_hash, data),
    {
        let hash = Block::hash(height, &justify, &data_hash);
        Block { height, hash, justify, data_hash, data }
    }

    /// Whether the block's own hash is that of its header fields.
    pub fn is_hash_correct(&self) -> (r: bool)
        ensures
            r == self.hash_matches(),
    {
        let expected = Block::hash(self.height, &self.justify, &self.data_hash);
        assert(self.hash_matches() ==> self.hash.bytes =~= expected.bytes);
        self.hash == expected
    }
}

} // verus!

//! Messages of the block sync subprotocol.

use vstd::prelude::*;

use crate::codec;
use crate::codec::encode_advertisement;
use crate::hotstuff::types::PhaseCertificate;
use crate::types::block::Block;
use crate::types::crypto_primitives::Keypair;
use crate::types::data_types::{BlockHeight, ChainID, SignatureBytes, VerifyingKey};

verus! {

/// A request for committed blocks from a height on.
#[derive(Clone, Copy, PartialEq, Eq, Debug)]
pub struct BlockSyncRequest {
    pub chain_id: ChainID,
    pub start_height: BlockHeight,
    pub limit: u32,
}

/// The blocks that were asked for, and the server's highest certificate.
pub struct BlockSyncResponse {
    pub blocks: Vec<Block>,
    pub highest_pc: PhaseCertificate,
}

/// A server's claim to serve blocks up to a height.
#[derive(Clone, Copy, PartialEq, Eq, Debug)]
pub struct AdvertiseBlock {
    pub chain_id: ChainID,
    pub highest_committed_block_height: BlockHeight,
    pub signature: SignatureBytes,
}

impl AdvertiseBlock {
    /// Whether `signer` signed the claim.
    pub open spec fn signed_by(&self, signer: VerifyingKey) -> bool {
        signer.accepts(
            codec::advertisement(self.chain_id, self.highest_committed_block_height),
            self.signature,
        )
    }

    /// Whether `signer` signed the claim.
    pub fn is_correct(&self, signer: &VerifyingKey) -> (r: bool)
        ensures
            r == self.signed_by(*signer),
    {
        signer.verify(
            &encode_advertisement(self.chain_id, self.highest_committed_block_height),
            &self.signature,
        )
    }
}

/// A server's highest certificate.
#[derive(PartialEq, Eq, Debug)]
pub struct AdvertisePC {
    pub highest_pc: PhaseCertificate,
}

/// A message by which a sync server makes itself known.
#[derive(PartialEq, Eq, Debug)]
pub enum BlockSyncAdvertiseMessage {
    AdvertiseBlock(AdvertiseBlock),
    AdvertisePC(AdvertisePC),
}

impl BlockSyncAdvertiseMessage {
    /// The chain that the message is about.
    pub open spec fn chain(&self) -> ChainID {
        match *self {
            BlockSyncAdvertiseMessage::AdvertiseBlock(message) => message.chain_id,
            BlockSyncAdvertiseMessage::AdvertisePC(message) => message.highest_pc.chain_id,
        }
    }

    /// The chain that the message is about.
    pub fn chain_id(&self) -> (r: ChainID)
        ensures
            r == self.chain(),
    {
        match self {
            BlockSyncAdvertiseMessage::AdvertiseBlock(message) => message.chain_id,
            BlockSyncAdvertiseMessage::AdvertisePC(message) => message.highest_pc.chain_id,
        }
    }

    /// A signed claim to serve blocks up to a height.
    pub fn advertise_block(
        keypair: &Keypair,
        chain_id: ChainID,
        highest_committed_block_height: BlockHeight,
    ) -> (r: Self)
        ensures
            r is AdvertiseBlock,
            r->AdvertiseBlock_0.chain_id == chain_id,
            r->AdvertiseBlock_0.highest_committed_block_height == highest_committed_block_height,
            r->AdvertiseBlock_0.signed_by(keypair.public_key()),
    {
        let signature = keypair.sign(
            &encode_advertisement(chain_id, highest_committed_block_height),
        );
        BlockSyncAdvertiseMessage::AdvertiseBlock(
            AdvertiseBlock { chain_id, highest_committed_block_height, signature },
        )
    }

    /// An advertisement of a certificate.
    pub fn advertise_pc(highest_pc: PhaseCertificate) -> (r: Self)
        ensures
            r == BlockSyncAdvertiseMessage::AdvertisePC(AdvertisePC { highest_pc }),
    {
        BlockSyncAdvertiseMessage::AdvertisePC(AdvertisePC { highest_pc })
    }
}

} // verus!

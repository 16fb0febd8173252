//! What the sync worker is told to do, and what it reports.

use vstd::prelude::*;

use crate::block_sync::messages::{BlockSyncRequest, BlockSyncResponse};
use crate::hotstuff::types::PhaseCertificate;
use crate::networking::receiving::BlockSyncResponseReceiveError;
use crate::types::block::Block;
use crate::types::data_types::{BlockHeight, ChainID, VerifyingKey};

verus! {

/// A command to the worker.
#[derive(Clone, Copy, PartialEq, Eq, Debug)]
pub enum SyncCommand {
    /// Fetch blocks from a peer, from a height on.
    Fetch { peer: VerifyingKey, chain_id: ChainID, start_height: BlockHeight, limit: u32 },
}

/// A report of the worker.
pub enum SyncResult {
    /// The peer sent blocks.
    Blocks { peer: VerifyingKey, blocks: Vec<Block>, highest_pc: PhaseCertificate },
    /// The peer has no more blocks.
    Empty { peer: VerifyingKey },
    /// The peer did not answer.
    Error { peer: VerifyingKey },
}

impl SyncCommand {
    /// The request that a command sends, and to whom.
    pub fn request(&self) -> (r: (VerifyingKey, BlockSyncRequest))
        ensures
            match *self {
                SyncCommand::Fetch { peer, chain_id, start_height, limit } => r == (
                    peer,
                    BlockSyncRequest { chain_id, start_height, limit },
                ),
            },
    {
        match self {
            SyncCommand::Fetch { peer, chain_id, start_height, limit } => (
                *peer,
                BlockSyncRequest {
                    chain_id: *chain_id,
                    start_height: *start_height,
                    limit: *limit,
                },
            ),
        }
    }
}

impl SyncResult {
    /// What the worker reports when a peer answered, or failed to.
    pub fn of_response(
        peer: VerifyingKey,
        response: Result<BlockSyncResponse, BlockSyncResponseReceiveError>,
    ) -> (r: SyncResult)
        ensures
            r == (match response {
                Ok(response) => if response.blocks@.len() == 0 {
                    SyncResult::Empty { peer }
                } else {
                    SyncResult::Blocks {
                        peer,
                        blocks: response.blocks,
                        highest_pc: response.highest_pc,
                    }
                },
                Err(_) => SyncResult::Error { peer },
            }),
    {
        match response {
            Ok(response) => if response.blocks.len() == 0 {
                SyncResult::Empty { peer }
            } else {
                SyncResult::Blocks {
                    peer,
                    blocks: response.blocks,
                    highest_pc: response.highest_pc,
                }
            },
            Err(_) => SyncResult::Error { peer },
        }
    }
}

} // verus!

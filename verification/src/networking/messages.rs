//! The messages that make a replica progress.

use vstd::prelude::*;

use crate::block_sync::messages::BlockSyncAdvertiseMessage;
use crate::hotstuff::messages;
use crate::hotstuff::messages::HotStuffMessage;
use crate::pacemaker;
use crate::pacemaker::PacemakerMessage;
use crate::types::data_types::{ChainID, ViewNumber};

verus! {

/// A message of one of the subprotocols.
#[derive(PartialEq, Eq, Debug)]
pub enum ProgressMessage {
    HotStuffMessage(HotStuffMessage),
    PacemakerMessage(PacemakerMessage),
    BlockSyncAdvertiseMessage(BlockSyncAdvertiseMessage),
}

/// The chain that a message is of.
pub open spec fn chain_of(message: ProgressMessage) -> ChainID {
    match message {
        ProgressMessage::HotStuffMessage(m) => messages::message_chain_id(m),
        ProgressMessage::PacemakerMessage(m) => pacemaker::progress_chain_id(m.progress_certificate),
        ProgressMessage::BlockSyncAdvertiseMessage(m) => m.chain(),
    }
}

/// The view that a message is for, if it is for any.
pub open spec fn view_of(message: ProgressMessage) -> Option<ViewNumber> {
    match message {
        ProgressMessage::HotStuffMessage(m) => Some(messages::message_view(m)),
        ProgressMessage::PacemakerMessage(m) => Some(pacemaker::progress_view(m.progress_certificate)),
        ProgressMessage::BlockSyncAdvertiseMessage(_) => None,
    }
}

/// The number of bytes that the fixed part of a message takes in memory.
pub open spec fn size_of_message(message: ProgressMessage) -> nat {
    match message {
        ProgressMessage::HotStuffMessage(m) => messages::message_size(m),
        ProgressMessage::PacemakerMessage(m) => vstd::layout::size_of::<PacemakerMessage>(),
        ProgressMessage::BlockSyncAdvertiseMessage(m) => vstd::layout::size_of::<
            BlockSyncAdvertiseMessage,
        >(),
    }
}

impl ProgressMessage {
    /// The chain that the message is of.
    pub fn chain_id(&self) -> (r: ChainID)
        ensures
            r == chain_of(*self),
    {
        match self {
            ProgressMessage::HotStuffMessage(m) => m.chain_id(),
            ProgressMessage::PacemakerMessage(m) => m.chain_id(),
            ProgressMessage::BlockSyncAdvertiseMessage(m) => m.chain_id(),
        }
    }

    /// The view that the message is for, if it is for any.
    pub fn view(&self) -> (r: Option<ViewNumber>)
        ensures
            r == view_of(*self),
    {
        match self {
            ProgressMessage::HotStuffMessage(m) => Some(m.view()),
            ProgressMessage::PacemakerMessage(m) => Some(m.view()),
            ProgressMessage::BlockSyncAdvertiseMessage(_) => None,
        }
    }

    /// The number of bytes that the fixed part of the message takes in memory.
    pub fn size(&self) -> (r: u64)
        ensures
            r == size_of_message(*self),
    {
        match self {
            ProgressMessage::HotStuffMessage(m) => m.size(),
            ProgressMessage::PacemakerMessage(m) => m.size(),
            ProgressMessage::BlockSyncAdvertiseMessage(_) => std::mem::size_of::<
                BlockSyncAdvertiseMessage,
            >() as u64,
        }
    }
}

} // verus!

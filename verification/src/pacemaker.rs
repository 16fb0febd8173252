//! What the HotStuff subprotocol knows of the pacemaker: tips, timeout certificates and views.

use vstd::prelude::*;

use std::sync::Arc;

use crate::hotstuff::types::PhaseCertificate;
use crate::types::data_types::{BlockHeight, Bytes, ChainID, CryptoHash, SignatureSet, ViewNumber};

verus! {

/// The header of the latest fresh proposal that a validator voted for.
#[derive(PartialEq, Eq, Debug)]
pub struct TipInfo {
    pub block_hash: CryptoHash,
    pub block_height: BlockHeight,
    pub block_justify: PhaseCertificate,
    pub block_data_hash: CryptoHash,
    pub view: ViewNumber,
}

impl Clone for TipInfo {
    fn clone(&self) -> (r: Self)
        ensures
            r == *self,
    {
        TipInfo {
            block_hash: self.block_hash,
            block_height: self.block_height,
            block_justify: self.block_justify.clone(),
            block_data_hash: self.block_data_hash,
            view: self.view,
        }
    }
}

/// What the voters of a timeout certificate added to their votes, in their own encoding. The library
/// carries it along and does not look into it.
#[derive(PartialEq, Eq, Debug)]
pub struct VoterMetadata {
    pub entries: Arc<Vec<Bytes>>,
}

impl View for VoterMetadata {
    type V = Seq<Bytes>;

    open spec fn view(&self) -> Seq<Bytes> {
        self.entries@
    }
}

impl Clone for VoterMetadata {
    fn clone(&self) -> (r: Self)
        ensures
            r == *self,
    {
        VoterMetadata { entries: self.entries.clone() }
    }
}

impl VoterMetadata {
    pub fn new(entries: Vec<Bytes>) -> (r: Self)
        ensures
            r@ == entries@,
    {
        VoterMetadata { entries: Arc::new(entries) }
    }
}

/// Proof that a quorum of validators timed out in a view, with the best tip and the best
/// certificate that they reported.
#[derive(PartialEq, Eq, Debug)]
pub struct TimeoutCertificate {
    pub chain_id: ChainID,
    pub view: ViewNumber,
    pub signatures: SignatureSet,
    pub high_tip: Option<TipInfo>,
    pub high_qc: Option<PhaseCertificate>,
    pub high_tip_is_winner: bool,
    pub voter_metadata: VoterMetadata,
}

impl Clone for TimeoutCertificate {
    fn clone(&self) -> (r: Self)
        ensures
            r == *self,
    {
        TimeoutCertificate {
            chain_id: self.chain_id,
            view: self.view,
            signatures: self.signatures.clone(),
            high_tip: match &self.high_tip {
                Some(tip) => Some(tip.clone()),
                None => None,
            },
            high_qc: match &self.high_qc {
                Some(pc) => Some(pc.clone()),
                None => None,
            },
            high_tip_is_winner: self.high_tip_is_winner,
            voter_metadata: self.voter_metadata.clone(),
        }
    }
}

/// A view together with the time, in milliseconds, at which it ends.
#[derive(Clone, Copy, PartialEq, Eq, Structural, Debug)]
pub struct ViewInfo {
    pub view: ViewNumber,
    pub deadline: u64,
}

impl ViewInfo {
    pub fn new(view: ViewNumber, deadline: u64) -> (r: ViewInfo)
        ensures
            r.view == view,
            r.deadline == deadline,
    {
        ViewInfo { view, deadline }
    }
}

/// What lets a replica leave a view.
#[derive(PartialEq, Eq, Debug)]
pub enum ProgressCertificate {
    TimeoutCertificate(TimeoutCertificate),
    PhaseCertificate(PhaseCertificate),
}

impl Clone for ProgressCertificate {
    fn clone(&self) -> (r: Self)
        ensures
            r == *self,
    {
        match self {
            ProgressCertificate::TimeoutCertificate(tc) => ProgressCertificate::TimeoutCertificate(
                tc.clone(),
            ),
            ProgressCertificate::PhaseCertificate(pc) => ProgressCertificate::PhaseCertificate(
                pc.clone(),
            ),
        }
    }
}

/// The chain that a progress certificate is of.
pub open spec fn progress_chain_id(certificate: ProgressCertificate) -> ChainID {
    match certificate {
        ProgressCertificate::TimeoutCertificate(tc) => tc.chain_id,
        ProgressCertificate::PhaseCertificate(pc) => pc.chain_id,
    }
}

/// The view that a progress certificate lets a replica leave.
pub open spec fn progress_view(certificate: ProgressCertificate) -> ViewNumber {
    match certificate {
        ProgressCertificate::TimeoutCertificate(tc) => tc.view,
        ProgressCertificate::PhaseCertificate(pc) => pc.view,
    }
}

/// A message of the pacemaker: the certificate on the strength of which a view can be left.
#[derive(PartialEq, Eq, Debug)]
pub struct PacemakerMessage {
    pub progress_certificate: ProgressCertificate,
}

impl Clone for PacemakerMessage {
    fn clone(&self) -> (r: Self)
        ensures
            r == *self,
    {
        PacemakerMessage { progress_certificate: self.progress_certificate.clone() }
    }
}

impl PacemakerMessage {
    /// A message that a view can be left.
    pub fn advance_view(progress_certificate: ProgressCertificate) -> (r: Self)
        ensures
            r.progress_certificate == progress_certificate,
    {
        PacemakerMessage { progress_certificate }
    }

    pub fn chain_id(&self) -> (r: ChainID)
        ensures
            r == progress_chain_id(self.progress_certificate),
    {
        match &self.progress_certificate {
            ProgressCertificate::TimeoutCertificate(tc) => tc.chain_id,
            ProgressCertificate::PhaseCertificate(pc) => pc.chain_id,
        }
    }

    pub fn view(&self) -> (r: ViewNumber)
        ensures
            r == progress_view(self.progress_certificate),
    {
        match &self.progress_certificate {
            ProgressCertificate::TimeoutCertificate(tc) => tc.view,
            ProgressCertificate::PhaseCertificate(pc) => pc.view,
        }
    }

    pub fn size(&self) -> (r: u64)
        ensures
            r == vstd::layout::size_of::<PacemakerMessage>(),
    {
        std::mem::size_of::<PacemakerMessage>() as u64
    }
}

} // verus!

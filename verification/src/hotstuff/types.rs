//! Phases, phase certificates, no-endorsement certificates and their collectors.

use vstd::prelude::*;

use crate::types::data_types::{ChainID, CryptoHash, SignatureSet, VerifyingKey, ViewNumber};

verus! {

/// The phase of voting that a certificate or a vote belongs to.
#[derive(Clone, Copy, PartialEq, Eq, Structural, Hash, Debug)]
pub enum Phase {
    /// The only phase of a block that changes no validator.
    Generic,
    /// The first phase of a block that changes the validator set.
    Prepare,
    /// The second phase of such a block.
    Precommit,
    /// The third phase, voted for by the outgoing validators.
    Commit,
    /// The last phase, voted for by the incoming validators.
    Decide,
}

impl Phase {
    pub fn is_generic(self) -> (r: bool)
        ensures
            r == (self == Phase::Generic),
    {
        self == Phase::Generic
    }

    pub fn is_prepare(self) -> (r: bool)
        ensures
            r == (self == Phase::Prepare),
    {
        self == Phase::Prepare
    }

    pub fn is_precommit(self) -> (r: bool)
        ensures
            r == (self == Phase::Precommit),
    {
        self == Phase::Precommit
    }

    pub fn is_commit(self) -> (r: bool)
        ensures
            r == (self == Phase::Commit),
    {
        self == Phase::Commit
    }

    pub fn is_decide(self) -> (r: bool)
        ensures
            r == (self == Phase::Decide),
    {
        self == Phase::Decide
    }
}

/// The hash that stands for the parent of the first block.
pub open spec fn genesis_hash() -> CryptoHash {
    CryptoHash { bytes: vstd::array::spec_array_fill_for_copy_type::<u8, 32>(0u8) }
}

/// Proof that a quorum of validators voted for a block in a phase of a view.
#[derive(PartialEq, Eq, Debug)]
pub struct PhaseCertificate {
    pub chain_id: ChainID,
    pub view: ViewNumber,
    pub block: CryptoHash,
    pub phase: Phase,
    pub signatures: SignatureSet,
}

/// Whether two certificates say the same.
pub open spec fn same_certificate(a: PhaseCertificate, b: PhaseCertificate) -> bool {
    &&& a.chain_id == b.chain_id
    &&& a.view == b.view
    &&& a.block == b.block
    &&& a.phase == b.phase
    &&& a.signatures@ == b.signatures@
}

impl Clone for PhaseCertificate {
    fn clone(&self) -> (r: Self)
        ensures
            r == *self,
    {
        PhaseCertificate {
            chain_id: self.chain_id,
            view: self.view,
            block: self.block,
            phase: self.phase,
            signatures: self.signatures.clone(),
        }
    }
}

impl PhaseCertificate {
    /// Whether this is the certificate that justifies the first block: chain, view and block hash
    /// all zero, generic, and without a place for a signature.
    pub open spec fn is_genesis(&self) -> bool {
        &&& self.chain_id.0 == 0
        &&& self.view.0 == 0
        &&& self.block == genesis_hash()
        &&& self.phase == Phase::Generic
        &&& self.signatures@.len() == 0
    }

    /// Whether a block may carry this certificate as its justification.
    pub open spec fn justifies_block(&self) -> bool {
        self.phase == Phase::Generic || self.phase == Phase::Decide
    }

    /// Whether a nudge may carry this certificate as its justification.
    pub open spec fn justifies_nudge(&self) -> bool {
        self.phase == Phase::Prepare || self.phase == Phase::Precommit || self.phase
            == Phase::Commit
    }

    /// The certificate that justifies the first block.
    pub fn genesis_pc() -> (r: PhaseCertificate)
        ensures
            r.is_genesis(),
    {
        PhaseCertificate {
            chain_id: ChainID(0),
            view: ViewNumber(0),
            block: CryptoHash { bytes: [0u8; 32] },
            phase: Phase::Generic,
            signatures: SignatureSet::genesis(),
        }
    }

    pub fn is_genesis_pc(&self) -> (r: bool)
        ensures
            r == self.is_genesis(),
    {
        self.chain_id.0 == 0 && self.view.0 == 0 && self.block == (CryptoHash { bytes: [0u8; 32] })
            && self.phase.is_generic() && self.signatures.len() == 0
    }

    pub fn is_block_justify(&self) -> (r: bool)
        ensures
            r == self.justifies_block(),
    {
        self.phase.is_generic() || self.phase.is_decide()
    }

    pub fn is_nudge_justify(&self) -> (r: bool)
        ensures
            r == self.justifies_nudge(),
    {
        self.phase.is_prepare() || self.phase.is_precommit() || self.phase.is_commit()
    }
}

/// Proof that a quorum of validators did not vote for the block of a timed-out view's high tip.
#[derive(PartialEq, Eq, Debug)]
pub struct NoEndorsementCertificate {
    pub view: ViewNumber,
    pub high_tip_qc_view: ViewNumber,
    pub signatures: SignatureSet,
}

impl Clone for NoEndorsementCertificate {
    fn clone(&self) -> (r: Self)
        ensures
            r == *self,
    {
        NoEndorsementCertificate {
            view: self.view,
            high_tip_qc_view: self.high_tip_qc_view,
            signatures: self.signatures.clone(),
        }
    }
}

/// Proof that a leader proposed two blocks in one view.
#[derive(Clone, Copy, PartialEq, Eq, Debug)]
pub struct EquivocationEvidence {
    pub view: ViewNumber,
    pub leader: VerifyingKey,
    pub block_a: CryptoHash,
    pub block_b: CryptoHash,
}

} // verus!

//! What happens inside a replica, for observers.

use vstd::prelude::*;

use crate::hotstuff::messages::{NewView, Nudge, PhaseVote, Proposal};
use crate::hotstuff::types::{EquivocationEvidence, PhaseCertificate};
use crate::types::block::Block;
use crate::types::data_types::{CryptoHash, VerifyingKey, ViewNumber};
use crate::types::validator_set::ValidatorSetUpdates;

verus! {

/// Something that happened inside a replica.
#[allow(inconsistent_fields)]
#[derive(PartialEq, Eq, Debug)]
pub enum Event {
    InsertBlock { block: Block },
    UpdateHighestPC { highest_pc: PhaseCertificate },
    UpdateLockedPC { locked_pc: PhaseCertificate },
    PruneBlock { block: CryptoHash },
    CommitBlock { block: CryptoHash },
    UpdateValidatorSet { cause_block: CryptoHash, validator_set_updates: ValidatorSetUpdates },
    NewView { new_view: NewView },
    StartView { view: ViewNumber },
    Propose { proposal: Proposal },
    Nudge { nudge: Nudge },
    PhaseVote { vote: PhaseVote },
    ReceiveProposal { origin: VerifyingKey, proposal: Proposal },
    ReceiveNudge { origin: VerifyingKey, nudge: Nudge },
    ReceivePhaseVote { origin: VerifyingKey, phase_vote: PhaseVote },
    ReceiveNewView { origin: VerifyingKey, new_view: NewView },
    CollectPC { phase_certificate: PhaseCertificate },
    EquivocationDetected { evidence: EquivocationEvidence },
    RollbackBlock { block: CryptoHash, view: ViewNumber, equivocator: VerifyingKey },
    StartSync { peer: VerifyingKey },
    EndSync { peer: VerifyingKey, blocks_synced: u64 },
}

} // verus!

//! When a certificate counts: which validator set it has to be signed by, and by how much power.

use vstd::prelude::*;

use crate::block_tree::cells::Cell;
use crate::block_tree::errors;
use crate::block_tree::errors::{BlockTreeError, Key};
use crate::block_tree::store;
use crate::block_tree::store::TreeView;
use crate::block_tree::tree;
use crate::block_tree::tree::BlockTreeSingleton;
use crate::codec;
use crate::codec::{encode_ne_message, encode_vote_message};
use crate::hotstuff::messages::Proposal;
use crate::hotstuff::types::{NoEndorsementCertificate, Phase, PhaseCertificate};
use crate::types::data_types::{BlockHeight, Power, SignatureBytes, SignatureSet, VerifyingKey};
use crate::types::validator_set;
use crate::types::validator_set::{ValidatorSet, ValidatorSetState, ValidatorSetUpdatesStatus};

verus! {

/// The power of the validators whose place in `signatures` is taken.
pub open spec fn signed_power(
    signatures: Seq<Option<SignatureBytes>>,
    validators: Seq<(VerifyingKey, Power)>,
) -> nat
    decreases signatures.len(),
{
    if signatures.len() == 0 || validators.len() == 0 {
        0
    } else {
        signed_power(signatures.drop_last(), validators.drop_last()) + (
        if signatures.last() is Some {
            validators.last().1.0 as nat
        } else {
            0
        })
    }
}

/// Whether every signature that is there is one of `message` by the validator of its place.
pub open spec fn signatures_valid(
    signatures: Seq<Option<SignatureBytes>>,
    validators: Seq<(VerifyingKey, Power)>,
    message: Seq<u8>,
) -> bool {
    forall|i: int|
        0 <= i < signatures.len() && (#[trigger] signatures[i]) is Some ==> validators[i].0.accepts(
            message,
            signatures[i]->0,
        )
}

/// Whether `signatures` has a place for each validator, holds valid signatures of `message` only,
/// and holds those of a quorum.
pub open spec fn quorum_signed(
    signatures: Seq<Option<SignatureBytes>>,
    validators: Seq<(VerifyingKey, Power)>,
    message: Seq<u8>,
) -> bool {
    &&& signatures.len() == validators.len()
    &&& signatures_valid(signatures, validators, message)
    &&& signed_power(signatures, validators) >= validator_set::quorum_power(validator_set::power_sum(validators))
}

/// The signed power is part of the power of the whole set.
pub proof fn lemma_signed_power_bound(
    signatures: Seq<Option<SignatureBytes>>,
    validators: Seq<(VerifyingKey, Power)>,
)
    requires
        signatures.len() == validators.len(),
    ensures
        signed_power(signatures, validators) <= validator_set::power_sum(validators),
    decreases signatures.len(),
{
    if signatures.len() > 0 {
        lemma_signed_power_bound(signatures.drop_last(), validators.drop_last());
    }
}

/// A sum of powers of part of a validator set fits a `u128`.
pub proof fn lemma_power_sum_fits(validators: Seq<(VerifyingKey, Power)>)
    requires
        validators.len() <= usize::MAX,
    ensures
        validator_set::power_sum(validators) < u128::MAX,
{
    validator_set::lemma_power_sum_bound(validators);
    assert(validators.len() * (u64::MAX as nat) <= (u64::MAX as nat) * (u64::MAX as nat))
        by (nonlinear_arith)
        requires
            validators.len() <= u64::MAX,
    ;
}

/// Whether `signatures` are valid signatures of `message` by a quorum of `validator_set`.
pub fn is_signed_by_quorum(
    signatures: &SignatureSet,
    validator_set: &ValidatorSet,
    message: &Vec<u8>,
) -> (r: bool)
    ensures
        r == quorum_signed(signatures@, validator_set@, message@),
{
    let count: usize = validator_set.len();
    if signatures.len() != count {
        return false;
    }
    let mut total: u128 = 0;
    let mut i: usize = 0;
    proof {
        lemma_power_sum_fits(validator_set@);
    }
    while i < count
        invariant
            i <= count,
            count == validator_set@.len(),
            count == signatures@.len(),
            validator_set::power_sum(validator_set@) < u128::MAX,
            total == signed_power(signatures@.take(i as int), validator_set@.take(i as int)),
            signatures_valid(signatures@.take(i as int), validator_set@, message@),
        decreases count - i,
    {
        proof {
            assert(signatures@.take(i + 1).drop_last() =~= signatures@.take(i as int));
            assert(validator_set@.take(i + 1).drop_last() =~= validator_set@.take(i as int));
            lemma_signed_power_bound(signatures@.take(i + 1), validator_set@.take(i + 1));
            lemma_power_sum_prefix(validator_set@, i + 1);
        }
        match &signatures.signatures[i] {
            Some(signature) => {
                let signer = validator_set.key_at(i);
                if !signer.verify(message, signature) {
                    assert(signatures@[i as int] is Some);
                    return false;
                }
                total = total + validator_set.entries[i].1.0 as u128;
            },
            None => {},
        }
        assert forall|j: int|
            0 <= j < i + 1 && (#[trigger] signatures@.take(i + 1)[j]) is Some implies validator_set@[j].0.accepts(
            message@,
            signatures@.take(i + 1)[j]->0,
        ) by {
            if j < i {
                assert(signatures@.take(i as int)[j] is Some);
            }
        }
        i = i + 1;
    }
    assert(signatures@.take(i as int) =~= signatures@);
    assert(validator_set@.take(i as int) =~= validator_set@);
    total >= validator_set.quorum().0
}

pub proof fn lemma_power_sum_prefix(validators: Seq<(VerifyingKey, Power)>, upto: int)
    requires
        0 <= upto <= validators.len(),
    ensures
        validator_set::power_sum(validators.take(upto)) <= validator_set::power_sum(validators),
    decreases validators.len(),
{
    if upto == validators.len() {
        assert(validators.take(upto) =~= validators);
    } else {
        assert(validators.drop_last().take(upto) =~= validators.take(upto));
        lemma_power_sum_prefix(validators.drop_last(), upto);
    }
}

/// The validators that have to sign a certificate, given where its block stands to the last block
/// that changed the validator set. `None` when no signature can make the certificate correct.
pub open spec fn certifying_validators(tree: TreeView, pc: PhaseCertificate) -> Option<
    Seq<(VerifyingKey, Power)>,
> {
    let committed = tree.committed_validators->0;
    let previous = tree.previous_validators->0;
    let stored = tree::stored_height(tree, pc.block);
    if stored is Err || stored->Ok_0 is None || tree.update_height is None {
        Some(committed)
    } else {
        let height = (stored->Ok_0->0).0;
        let update_height = (tree.update_height->0).0;
        if height < update_height {
            Some(previous)
        } else if height > update_height {
            Some(committed)
        } else {
            match (pc.phase, tree::updates_status(tree, pc.block)) {
                (Phase::Generic, _) => None,
                (_, ValidatorSetUpdatesStatus::NoUpdates) => None,
                (Phase::Decide, ValidatorSetUpdatesStatus::Committed) => Some(committed),
                (Phase::Decide, ValidatorSetUpdatesStatus::Pending(updates)) => Some(
                    validator_set::updated_entries(committed, updates),
                ),
                (_, ValidatorSetUpdatesStatus::Committed) => Some(previous),
                (_, ValidatorSetUpdatesStatus::Pending(_)) => Some(committed),
            }
        }
    }
}

/// Whether a phase certificate is signed by a quorum of `validators`.
pub open spec fn pc_signed_by(
    pc: PhaseCertificate,
    validators: Seq<(VerifyingKey, Power)>,
) -> bool {
    quorum_signed(
        pc.signatures@,
        validators,
        codec::vote_message(pc.chain_id, pc.view, pc.block, pc.phase),
    )
}

/// Whether a phase certificate is correct: the genesis certificate is, and any other one is if
/// the validators that have to sign it did.
pub open spec fn pc_correct(tree: TreeView, pc: PhaseCertificate) -> bool {
    pc.is_genesis() || (certifying_validators(tree, pc) is Some && pc_signed_by(
        pc,
        certifying_validators(tree, pc)->0,
    ))
}

/// Why it cannot be told whether a phase certificate is correct, if it cannot: a variable that this
/// depends on cannot be read, or lacks a value.
pub open spec fn pc_fault(tree: TreeView, pc: PhaseCertificate) -> Option<BlockTreeError> {
    if pc.is_genesis() {
        None
    } else {
        match tree::stored_height(tree, pc.block) {
            Err(e) => Some(e),
            Ok(height) => if tree::validators_fault(tree) is Some {
                tree::validators_fault(tree)
            } else if height is Some && tree.update_height == height && pc.phase != Phase::Generic
                && store::unread_at(tree, Cell::ValidatorSetUpdatesStatus(pc.block)) {
                Some(errors::undecodable(Key::ValidatorSetUpdatesStatus { block: pc.block }))
            } else {
                None
            },
        }
    }
}

impl PhaseCertificate {
    /// Whether the certificate is signed by a quorum of `validator_set`.
    pub fn is_correctly_signed(&self, validator_set: &ValidatorSet) -> (r: bool)
        ensures
            r == pc_signed_by(*self, validator_set@),
    {
        let message = encode_vote_message(self.chain_id, self.view, &self.block, self.phase);
        is_signed_by_quorum(&self.signatures, validator_set, &message)
    }

    /// Whether the certificate is correct.
    pub fn is_correct(&self, block_tree: &BlockTreeSingleton) -> (r: Result<bool, BlockTreeError>)
        ensures
            r == (match pc_fault(block_tree@, *self) {
                Some(e) => Err(e),
                None => Ok(pc_correct(block_tree@, *self)),
            }),
            tree::initialized(block_tree@) ==> r == Ok::<bool, BlockTreeError>(
                pc_correct(block_tree@, *self),
            ),
    {
        if self.is_genesis_pc() {
            return Ok(true);
        }
        let height = match block_tree.block_height(&self.block) {
            Ok(height) => height,
            Err(e) => {
                return Err(e);
            },
        };
        let state = match block_tree.validator_set_state() {
            Ok(state) => state,
            Err(e) => {
                return Err(e);
            },
        };
        match (height, state.update_height) {
            (Some(height), Some(update_height)) => {
                if height.0 < update_height.0 {
                    Ok(self.is_correctly_signed(&state.previous_validator_set))
                } else if height.0 > update_height.0 {
                    Ok(self.is_correctly_signed(&state.committed_validator_set))
                } else {
                    self.is_correct_for_updates(block_tree, &state)
                }
            },
            _ => Ok(self.is_correctly_signed(&state.committed_validator_set)),
        }
    }

    /// Whether the certificate is correct, where its block is the last that changed the validator
    /// set.
    fn is_correct_for_updates(
        &self,
        block_tree: &BlockTreeSingleton,
        state: &ValidatorSetState,
    ) -> (r: Result<bool, BlockTreeError>)
        requires
            !self.is_genesis(),
            tree::validators_fault(block_tree@) is None,
            state@ == tree::validators_of(block_tree@),
            block_tree@.update_height is Some,
            tree::stored_height(block_tree@, self.block) == Ok::<
                Option<BlockHeight>,
                BlockTreeError,
            >(block_tree@.update_height),
        ensures
            r == (match pc_fault(block_tree@, *self) {
                Some(e) => Err(e),
                None => Ok(pc_correct(block_tree@, *self)),
            }),
    {
        if self.phase == Phase::Generic {
            return Ok(false);
        }
        let status = match block_tree.validator_set_updates_status(&self.block) {
            Ok(status) => status,
            Err(e) => {
                return Err(e);
            },
        };
        match self.phase {
            Phase::Decide => match status {
                ValidatorSetUpdatesStatus::Committed => Ok(
                    self.is_correctly_signed(&state.committed_validator_set),
                ),
                ValidatorSetUpdatesStatus::Pending(updates) => {
                    let mut next = state.committed_validator_set.clone();
                    next.apply_updates(&updates);
                    Ok(self.is_correctly_signed(&next))
                },
                ValidatorSetUpdatesStatus::NoUpdates => Ok(false),
            },
            _ => match status {
                ValidatorSetUpdatesStatus::Committed => Ok(
                    self.is_correctly_signed(&state.previous_validator_set),
                ),
                ValidatorSetUpdatesStatus::Pending(_) => Ok(
                    self.is_correctly_signed(&state.committed_validator_set),
                ),
                ValidatorSetUpdatesStatus::NoUpdates => Ok(false),
            },
        }
    }
}

/// Whether a no-endorsement certificate is signed by a quorum of `validators`.
pub open spec fn nec_signed_by(
    nec: NoEndorsementCertificate,
    validators: Seq<(VerifyingKey, Power)>,
) -> bool {
    quorum_signed(nec.signatures@, validators, codec::ne_message(nec.view, nec.high_tip_qc_view))
}

/// Whether a no-endorsement certificate is valid: the high tip's certificate is more than one
/// view older than the certificate's view, and a quorum signed of the validators that were active,
/// which during a change of validators are the previous ones.
pub open spec fn nec_valid(tree: TreeView, nec: NoEndorsementCertificate) -> bool {
    &&& nec.view.0 > 0
    &&& nec.high_tip_qc_view.0 < nec.view.0 - 1
    &&& nec_signed_by(
        nec,
        if tree.update_decided->0 {
            tree.committed_validators->0
        } else {
            tree.previous_validators->0
        },
    )
}

/// Whether a no-endorsement certificate is signed by a quorum of `validator_set`.
pub fn is_nec_correctly_signed(nec: &NoEndorsementCertificate, validator_set: &ValidatorSet) -> (r:
    bool)
    ensures
        r == nec_signed_by(*nec, validator_set@),
{
    let message = encode_ne_message(nec.view, nec.high_tip_qc_view);
    is_signed_by_quorum(&nec.signatures, validator_set, &message)
}

/// Whether a no-endorsement certificate is valid.
pub fn valid_nec(nec: &NoEndorsementCertificate, block_tree: &BlockTreeSingleton) -> (r: Result<
    bool,
    BlockTreeError,
>)
    requires
        tree::initialized(block_tree@),
    ensures
        r == Ok::<bool, BlockTreeError>(nec_valid(block_tree@, *nec)),
{
    if nec.view.0 == 0 || nec.high_tip_qc_view.0 >= nec.view.0 - 1 {
        return Ok(false);
    }
    let state = match block_tree.validator_set_state() {
        Ok(state) => state,
        Err(e) => {
            return Err(e);
        },
    };
    if state.update_decided {
        Ok(is_nec_correctly_signed(nec, &state.committed_validator_set))
    } else {
        Ok(is_nec_correctly_signed(nec, &state.previous_validator_set))
    }
}

/// Whether a proposal is fresh: its block extends the certificate of the view just before, or it
/// proves that a skipped block is safe to abandon, or the timeout certificate settles on a
/// certificate.
pub open spec fn proposal_fresh(proposal: Proposal) -> bool {
    ||| proposal.view.0 > 0 && proposal.block.justify.view.0 == proposal.view.0 - 1
    ||| proposal.nec is Some
    ||| match proposal.tc {
        Some(tc) => tc.high_qc is Some && !tc.high_tip_is_winner,
        None => false,
    }
}

/// Whether a proposal is fresh.
pub fn is_fresh_proposal(proposal: &Proposal) -> (r: bool)
    ensures
        r == proposal_fresh(*proposal),
{
    if proposal.view.0 > 0 && proposal.block.justify.view.0 == proposal.view.0 - 1 {
        return true;
    }
    if proposal.nec.is_some() {
        return true;
    }
    match &proposal.tc {
        Some(tc) => tc.high_qc.is_some() && !tc.high_tip_is_winner,
        None => false,
    }
}

} // verus!

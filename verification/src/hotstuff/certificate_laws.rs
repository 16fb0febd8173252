//! Who has to sign a certificate, how much power a quorum is, and what a signature is of.

use vstd::prelude::*;

use crate::block_tree::store::TreeView;
use crate::codec;
use crate::hotstuff::certificates;
use crate::hotstuff::types::{Phase, PhaseCertificate};
use crate::roles;
use crate::types::crypto_primitives;
use crate::types::data_types::{
    BlockHeight, ChainID, CryptoHash, Power, SignatureBytes, VerifyingKey, ViewNumber,
};
use crate::types::validator_set;
use crate::types::validator_set::ValidatorSetUpdatesStatus;
use crate::wire;
use crate::wire::Wire;

verus! {

/// The power of the validators from a place on that are among the signers.
pub open spec fn signers_power(
    signatures: Seq<Option<SignatureBytes>>,
    validators: Seq<(VerifyingKey, Power)>,
    from: int,
) -> int
    decreases validators.len() - from,
{
    if from < 0 || from >= validators.len() {
        0
    } else if signatures[from] is Some {
        validators[from].1.0 + signers_power(signatures, validators, from + 1)
    } else {
        signers_power(signatures, validators, from + 1)
    }
}

/// The power of all validators from a place on.
pub open spec fn everyones_power(validators: Seq<(VerifyingKey, Power)>, from: int) -> int
    decreases validators.len() - from,
{
    if from < 0 || from >= validators.len() {
        0
    } else {
        validators[from].1.0 + everyones_power(validators, from + 1)
    }
}

proof fn lemma_power_from_a_place(
    signatures: Seq<Option<SignatureBytes>>,
    validators: Seq<(VerifyingKey, Power)>,
    from: int,
)
    requires
        signatures.len() == validators.len(),
        0 <= from < validators.len(),
    ensures
        signers_power(signatures, validators, from) == signers_power(
            signatures.drop_last(),
            validators.drop_last(),
            from,
        ) + (if signatures.last() is Some {
            validators.last().1.0 as int
        } else {
            0
        }),
        everyones_power(validators, from) == everyones_power(validators.drop_last(), from)
            + validators.last().1.0,
    decreases validators.len() - from,
{
    if from < validators.len() - 1 {
        lemma_power_from_a_place(signatures, validators, from + 1);
    } else {
        assert(signers_power(signatures, validators, from + 1) == 0);
        assert(everyones_power(validators, from + 1) == 0);
    }
}

pub(crate) proof fn lemma_power_adds_up(
    signatures: Seq<Option<SignatureBytes>>,
    validators: Seq<(VerifyingKey, Power)>,
)
    requires
        signatures.len() == validators.len(),
    ensures
        certificates::signed_power(signatures, validators) == signers_power(
            signatures,
            validators,
            0,
        ),
        validator_set::power_sum(validators) == everyones_power(validators, 0),
    decreases validators.len(),
{
    if validators.len() > 0 {
        lemma_power_adds_up(signatures.drop_last(), validators.drop_last());
        lemma_power_from_a_place(signatures, validators, 0);
    }
}

/// A message is signed by a quorum exactly if there is one place for each validator, each signature
/// that is there is accepted by the key of its place, and the signers have more than two thirds of
/// the power of all.
pub proof fn law_a_quorum_is_more_than_two_thirds(
    signatures: Seq<Option<SignatureBytes>>,
    validators: Seq<(VerifyingKey, Power)>,
    message: Seq<u8>,
)
    ensures
        certificates::quorum_signed(signatures, validators, message) <==> ({
            &&& signatures.len() == validators.len()
            &&& forall|i: int|
                0 <= i < signatures.len() && (#[trigger] signatures[i]) is Some
                    ==> crypto_primitives::ed25519_accepts(
                    validators[i].0.bytes@,
                    message,
                    (signatures[i]->0).bytes@,
                )
            &&& 3 * signers_power(signatures, validators, 0) > 2 * everyones_power(validators, 0)
        }),
{
    if signatures.len() == validators.len() {
        lemma_power_adds_up(signatures, validators);
    }
}

/// Whether a certificate carries signatures of its chain, view, block and phase by a quorum of
/// `validators`.
pub open spec fn is_certified_by(
    pc: PhaseCertificate,
    validators: Seq<(VerifyingKey, Power)>,
) -> bool {
    certificates::quorum_signed(
        pc.signatures@,
        validators,
        codec::vote_message(pc.chain_id, pc.view, pc.block, pc.phase),
    )
}

/// The certificate of a block above the height of the last change of validators is correct exactly
/// if a quorum of the committed validators signed it, and that of a block below that height exactly
/// if a quorum of the previous validators did. Where the validators never changed, or the tree knows
/// no height of the block, the committed validators have to sign. A genesis certificate needs no
/// signature.
pub proof fn law_certificates_are_signed_by_the_validators_of_their_height(
    tree: TreeView,
    pc: PhaseCertificate,
)
    ensures
        pc.is_genesis() ==> certificates::pc_correct(tree, pc),
        !pc.is_genesis() && tree.blocks.contains_key(pc.block) ==> ({
            let height = tree.blocks[pc.block].height;
            &&& tree.update_height is Some && height.0 > (tree.update_height->0).0 ==> (
            certificates::pc_correct(tree, pc) <==> is_certified_by(
                pc,
                tree.committed_validators->0,
            ))
            &&& tree.update_height is Some && height.0 < (tree.update_height->0).0 ==> (
            certificates::pc_correct(tree, pc) <==> is_certified_by(
                pc,
                tree.previous_validators->0,
            ))
        }),
        !pc.is_genesis() && tree.update_height is None ==> (certificates::pc_correct(tree, pc)
            <==> is_certified_by(pc, tree.committed_validators->0)),
        !pc.is_genesis() && !tree.blocks.contains_key(pc.block) && tree.unread == Map::<
            Seq<u8>,
            Seq<u8>,
        >::empty() ==> (certificates::pc_correct(tree, pc) <==> is_certified_by(
            pc,
            tree.committed_validators->0,
        )),
{
}

/// The certificate of the block that last changed the validators is never generic. While the change
/// is not committed, a decide certificate has to be signed by the validators that it leads to, and
/// one of an earlier phase by the validators that it leads away from. Once it is committed, the
/// former are the committed validators and the latter the previous ones. Without updates no
/// certificate of that block is correct.
pub proof fn law_certificates_of_a_change_of_validators(tree: TreeView, pc: PhaseCertificate)
    requires
        !pc.is_genesis(),
        tree.blocks.contains_key(pc.block),
        tree.update_height == Some(tree.blocks[pc.block].height),
    ensures
        pc.phase == Phase::Generic ==> !certificates::pc_correct(tree, pc),
        !tree.validator_set_updates.contains_key(pc.block) ==> !certificates::pc_correct(tree, pc),
        tree.validator_set_updates.contains_key(pc.block) && pc.phase != Phase::Generic ==> (
        match tree.validator_set_updates[pc.block] {
            ValidatorSetUpdatesStatus::Committed => if pc.phase == Phase::Decide {
                certificates::pc_correct(tree, pc) <==> is_certified_by(
                    pc,
                    tree.committed_validators->0,
                )
            } else {
                certificates::pc_correct(tree, pc) <==> is_certified_by(
                    pc,
                    tree.previous_validators->0,
                )
            },
            ValidatorSetUpdatesStatus::Pending(updates) => if pc.phase == Phase::Decide {
                certificates::pc_correct(tree, pc) <==> is_certified_by(
                    pc,
                    validator_set::updated_entries(tree.committed_validators->0, updates),
                )
            } else {
                certificates::pc_correct(tree, pc) <==> is_certified_by(
                    pc,
                    tree.committed_validators->0,
                )
            },
            ValidatorSetUpdatesStatus::NoUpdates => !certificates::pc_correct(tree, pc),
        }),
{
}

/// Two numbers with the same bytes are the same, and the bytes of each are eight.
proof fn lemma_number(a: u64, b: u64)
    ensures
        vstd::bytes::spec_u64_to_le_bytes(a).len() == 8,
        vstd::bytes::spec_u64_to_le_bytes(b).len() == 8,
        vstd::bytes::spec_u64_to_le_bytes(a) == vstd::bytes::spec_u64_to_le_bytes(b) ==> a == b,
{
    vstd::bytes::lemma_auto_spec_u64_to_from_le_bytes();
}

/// Two messages that consist of two numbers each are the same only if the numbers are.
proof fn lemma_two_numbers(a1: u64, a2: u64, b1: u64, b2: u64)
    requires
        vstd::bytes::spec_u64_to_le_bytes(a1) + vstd::bytes::spec_u64_to_le_bytes(a2)
            == vstd::bytes::spec_u64_to_le_bytes(b1) + vstd::bytes::spec_u64_to_le_bytes(b2),
    ensures
        a1 == b1,
        a2 == b2,
{
    lemma_number(a1, b1);
    lemma_number(a2, b2);
    let a = vstd::bytes::spec_u64_to_le_bytes(a1) + vstd::bytes::spec_u64_to_le_bytes(a2);
    let b = vstd::bytes::spec_u64_to_le_bytes(b1) + vstd::bytes::spec_u64_to_le_bytes(b2);
    assert(a.subrange(0, 8) =~= vstd::bytes::spec_u64_to_le_bytes(a1));
    assert(b.subrange(0, 8) =~= vstd::bytes::spec_u64_to_le_bytes(b1));
    assert(a.subrange(8, 16) =~= vstd::bytes::spec_u64_to_le_bytes(a2));
    assert(b.subrange(8, 16) =~= vstd::bytes::spec_u64_to_le_bytes(b2));
}

/// A vote is for one chain, one view, one block and one phase: what is signed differs where any of
/// these does, so that a signature of one vote is none of another.
pub proof fn law_votes_sign_all_that_they_say(
    chain_id: ChainID,
    view: ViewNumber,
    block: CryptoHash,
    phase: Phase,
    other_chain: ChainID,
    other_view: ViewNumber,
    other_block: CryptoHash,
    other_phase: Phase,
)
    requires
        codec::vote_message(chain_id, view, block, phase) == codec::vote_message(
            other_chain,
            other_view,
            other_block,
            other_phase,
        ),
    ensures
        chain_id == other_chain,
        view == other_view,
        block == other_block,
        phase == other_phase,
{
    lemma_number(chain_id.0, other_chain.0);
    lemma_number(view.0, other_view.0);
    let a = codec::vote_message(chain_id, view, block, phase);
    let b = codec::vote_message(other_chain, other_view, other_block, other_phase);
    assert(a.subrange(0, 8) =~= vstd::bytes::spec_u64_to_le_bytes(chain_id.0));
    assert(b.subrange(0, 8) =~= vstd::bytes::spec_u64_to_le_bytes(other_chain.0));
    assert(a.subrange(8, 16) =~= vstd::bytes::spec_u64_to_le_bytes(view.0));
    assert(b.subrange(8, 16) =~= vstd::bytes::spec_u64_to_le_bytes(other_view.0));
    assert(a.subrange(16, 48) =~= block.bytes@);
    assert(b.subrange(16, 48) =~= other_block.bytes@);
    assert(block.bytes =~= other_block.bytes);
    assert(a[48] == codec::phase_tag(phase));
    assert(b[48] == codec::phase_tag(other_phase));
}

/// A no-endorsement is for one view and one view of a certificate.
pub proof fn law_no_endorsements_sign_all_that_they_say(
    view: ViewNumber,
    certified: ViewNumber,
    other_view: ViewNumber,
    other_certified: ViewNumber,
)
    requires
        codec::ne_message(view, certified) == codec::ne_message(other_view, other_certified),
    ensures
        view == other_view,
        certified == other_certified,
{
    lemma_two_numbers(view.0, certified.0, other_view.0, other_certified.0);
}

/// An advertisement is for one chain and one height, and a timeout for one chain and one view.
pub proof fn law_advertisements_and_timeouts_sign_all_that_they_say(
    chain_id: ChainID,
    other_chain: ChainID,
    number: u64,
    other: u64,
)
    requires
        codec::advertisement(chain_id, BlockHeight(number)) == codec::advertisement(
            other_chain,
            BlockHeight(other),
        ) || roles::timeout_message(chain_id, ViewNumber(number)) == roles::timeout_message(
            other_chain,
            ViewNumber(other),
        ),
    ensures
        chain_id == other_chain,
        number == other,
{
    lemma_two_numbers(chain_id.0, number, other_chain.0, other);
}

/// A block's hash is taken of its height, all of its justification and its data hash: two blocks
/// that differ in one of these are hashed from different bytes.
pub proof fn law_blocks_are_hashed_with_their_justification(
    height: BlockHeight,
    justify: PhaseCertificate,
    data_hash: CryptoHash,
    other_height: BlockHeight,
    other_justify: PhaseCertificate,
    other_data_hash: CryptoHash,
)
    requires
        justify.fits(),
        other_justify.fits(),
        codec::block_preimage(height, justify, data_hash) == codec::block_preimage(
            other_height,
            other_justify,
            other_data_hash,
        ),
    ensures
        height == other_height,
        justify.chain_id == other_justify.chain_id,
        justify.view == other_justify.view,
        justify.block == other_justify.block,
        justify.phase == other_justify.phase,
        justify.signatures@ == other_justify.signatures@,
        data_hash == other_data_hash,
{
    lemma_number(height.0, other_height.0);
    wire::law_certificates_are_written_as_hashed(justify);
    wire::law_certificates_are_written_as_hashed(other_justify);
    let a = codec::block_preimage(height, justify, data_hash);
    let b = codec::block_preimage(other_height, other_justify, other_data_hash);
    assert(a.subrange(0, 8) =~= vstd::bytes::spec_u64_to_le_bytes(height.0));
    assert(b.subrange(0, 8) =~= vstd::bytes::spec_u64_to_le_bytes(other_height.0));
    assert(a.skip(8) =~= justify.encoding() + data_hash.bytes@);
    assert(b.skip(8) =~= other_justify.encoding() + other_data_hash.bytes@);
    PhaseCertificate::lemma_unique(
        justify,
        data_hash.bytes@,
        other_justify,
        other_data_hash.bytes@,
    );
    assert(data_hash.bytes =~= other_data_hash.bytes);
}

} // verus!

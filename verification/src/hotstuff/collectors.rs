//! Collecting votes into certificates.

use vstd::prelude::*;

use crate::codec;
use crate::codec::encode_ne_message;
use crate::hotstuff::certificates;
use crate::hotstuff::messages::PhaseVote;
use crate::hotstuff::types::{NoEndorsementCertificate, Phase, PhaseCertificate};
use crate::types::data_types::{
    ChainID, CryptoHash, Power, SignatureBytes, SignatureSet, TotalPower, VerifyingKey, ViewNumber,
};
use crate::types::table::{Table, TableKey};
use crate::types::validator_set;
use crate::types::validator_set::{same_entries, ValidatorSet, ValidatorSetState, ValidatorsView};

verus! {

/// What votes are collected for: a block in a phase.
#[derive(Clone, Copy, Debug)]
pub struct VoteKey {
    pub block: CryptoHash,
    pub phase: Phase,
}

impl TableKey for VoteKey {
    type Model = VoteKey;

    open spec fn model(&self) -> VoteKey {
        *self
    }

    fn same(&self, other: &Self) -> (r: bool) {
        self.block.same(&other.block) && self.phase == other.phase
    }
}

/// Signatures with the power that they stand for.
pub type Tally = (Seq<Option<SignatureBytes>>, nat);

/// What a [`PhaseVoteCollector`] holds.
#[verifier::ext_equal]
pub struct CollectorView {
    pub chain_id: ChainID,
    pub view: ViewNumber,
    pub validators: Seq<(VerifyingKey, Power)>,
    pub tallies: Map<VoteKey, Tally>,
}

/// No signatures, for a set of `len` validators.
pub open spec fn no_signatures(len: nat) -> Seq<Option<SignatureBytes>> {
    Seq::new(len, |i: int| None::<SignatureBytes>)
}

/// A collector that has collected nothing.
pub open spec fn fresh_collector(
    chain_id: ChainID,
    view: ViewNumber,
    validators: Seq<(VerifyingKey, Power)>,
) -> CollectorView {
    CollectorView { chain_id, view, validators, tallies: Map::empty() }
}

/// The tally of `key` so far.
pub open spec fn tally_of(collector: CollectorView, key: VoteKey) -> Tally {
    if collector.tallies.contains_key(key) {
        collector.tallies[key]
    } else {
        (no_signatures(collector.validators.len()), 0)
    }
}

/// Whether each tally has a place for each validator and counts exactly the power of those that
/// signed.
pub open spec fn collector_sound(collector: CollectorView) -> bool {
    &&& collector.validators.len() <= usize::MAX
    &&& forall|key: VoteKey| #[trigger]
        collector.tallies.contains_key(key) ==> {
            &&& collector.tallies[key].0.len() == collector.validators.len()
            &&& collector.tallies[key].1 == certificates::signed_power(
                collector.tallies[key].0,
                collector.validators,
            )
        }
}

/// Whether every signature that was collected is valid.
pub open spec fn collector_valid(collector: CollectorView) -> bool {
    forall|key: VoteKey| #[trigger]
        collector.tallies.contains_key(key) ==> certificates::signatures_valid(
            collector.tallies[key].0,
            collector.validators,
            codec::vote_message(collector.chain_id, collector.view, key.block, key.phase),
        )
}

/// What a vote does to a collector: the collector afterwards, and the signatures of the
/// certificate that it completes. A vote for another chain or view, by a stranger, or by someone
/// who voted for the same before, does nothing.
pub open spec fn collected(
    collector: CollectorView,
    signer: VerifyingKey,
    vote: PhaseVote,
) -> (CollectorView, Option<Seq<Option<SignatureBytes>>>) {
    let at = validator_set::position_of(collector.validators, signer);
    let key = VoteKey { block: vote.block, phase: vote.phase };
    let (signatures, power) = tally_of(collector, key);
    if collector.chain_id != vote.chain_id || collector.view != vote.view || !validator_set::has_validator(
        collector.validators,
        signer,
    ) || signatures[at] is Some {
        (collector, None)
    } else {
        let signatures = signatures.update(at, Some(vote.signature));
        let power = power + collector.validators[at].1.0 as nat;
        if power >= validator_set::quorum_power(validator_set::power_sum(collector.validators)) {
            (
                CollectorView { tallies: collector.tallies.remove(key), ..collector },
                Some(signatures),
            )
        } else {
            (
                CollectorView {
                    tallies: collector.tallies.insert(key, (signatures, power)),
                    ..collector
                },
                None,
            )
        }
    }
}

/// Adding a signature adds the power of its validator.
pub proof fn lemma_signed_power_update(
    signatures: Seq<Option<SignatureBytes>>,
    validators: Seq<(VerifyingKey, Power)>,
    at: int,
    signature: SignatureBytes,
)
    requires
        signatures.len() == validators.len(),
        0 <= at < signatures.len(),
        signatures[at] is None,
    ensures
        certificates::signed_power(
            signatures.update(at, Some(signature)),
            validators,
        ) == certificates::signed_power(
            signatures,
            validators,
        ) + validators[at].1.0,
    decreases signatures.len(),
{
    let updated = signatures.update(at, Some(signature));
    if at == signatures.len() - 1 {
        assert(updated.drop_last() =~= signatures.drop_last());
    } else {
        assert(updated.drop_last() =~= signatures.drop_last().update(at, Some(signature)));
        lemma_signed_power_update(
            signatures.drop_last(),
            validators.drop_last(),
            at,
            signature,
        );
    }
}

/// Without signatures there is no signed power.
pub proof fn lemma_no_signed_power(validators: Seq<(VerifyingKey, Power)>)
    ensures
        certificates::signed_power(no_signatures(validators.len()), validators) == 0,
    decreases validators.len(),
{
    if validators.len() > 0 {
        lemma_no_signed_power(validators.drop_last());
        assert(no_signatures(validators.len()).drop_last() =~= no_signatures(
            validators.drop_last().len(),
        ));
    }
}

/// A certificate that is collected from correctly signed votes is signed by a quorum, and the
/// collector goes on holding valid signatures only.
pub proof fn law_collected_certificates_are_signed(
    collector: CollectorView,
    signer: VerifyingKey,
    vote: PhaseVote,
    pc: PhaseCertificate,
)
    requires
        collector_sound(collector),
        collector_valid(collector),
        vote.signed_by(signer),
        pc.chain_id == collector.chain_id,
        pc.view == collector.view,
        pc.block == vote.block,
        pc.phase == vote.phase,
        collected(collector, signer, vote).1 is Some ==> pc.signatures@ == collected(
            collector,
            signer,
            vote,
        ).1->0,
    ensures
        collector_valid(collected(collector, signer, vote).0),
        collected(collector, signer, vote).1 is Some ==> certificates::pc_signed_by(pc, collector.validators),
{
    let at = validator_set::position_of(collector.validators, signer);
    let key = VoteKey { block: vote.block, phase: vote.phase };
    let (signatures, power) = tally_of(collector, key);
    let (after, done) = collected(collector, signer, vote);
    lemma_position_of(collector.validators, signer);
    lemma_no_signed_power(collector.validators);
    if collector.chain_id == vote.chain_id && collector.view == vote.view && validator_set::has_validator(
        collector.validators,
        signer,
    ) && signatures[at] is None {
        let message = codec::vote_message(collector.chain_id, collector.view, vote.block, vote.phase);
        let updated = signatures.update(at, Some(vote.signature));
        assert(certificates::signatures_valid(signatures, collector.validators, message));
        assert(certificates::signatures_valid(updated, collector.validators, message)) by {
            assert forall|i: int|
                0 <= i < updated.len() && (#[trigger] updated[i]) is Some implies collector.validators[i].0.accepts(
                message,
                updated[i]->0,
            ) by {
                if i != at {
                    assert(signatures[i] is Some);
                }
            }
        }
        lemma_signed_power_update(signatures, collector.validators, at, vote.signature);
        assert forall|k: VoteKey| #[trigger] after.tallies.contains_key(k) implies certificates::signatures_valid(
            after.tallies[k].0,
            after.validators,
            codec::vote_message(after.chain_id, after.view, k.block, k.phase),
        ) by {
            if k != key {
                assert(collector.tallies.contains_key(k));
            }
        }
    }
}

/// Where a validator stands in a list.
pub proof fn lemma_position_of(validators: Seq<(VerifyingKey, Power)>, key: VerifyingKey)
    ensures
        0 <= validator_set::position_of(validators, key) <= validators.len(),
        validator_set::has_validator(validators, key) <==> validator_set::position_of(validators, key) < validators.len(),
        validator_set::has_validator(validators, key) ==> validators[validator_set::position_of(validators, key)].0 == key,
    decreases validators.len(),
{
    if validators.len() > 0 && validators[0].0 != key {
        lemma_position_of(validators.drop_first(), key);
    }
}

/// Collects the votes of one view for one validator set.
pub struct PhaseVoteCollector {
    pub chain_id: ChainID,
    pub view: ViewNumber,
    pub validator_set: ValidatorSet,
    pub signature_sets: Table<VoteKey, (SignatureSet, TotalPower)>,
}

impl View for PhaseVoteCollector {
    type V = CollectorView;

    open spec fn view(&self) -> CollectorView {
        CollectorView {
            chain_id: self.chain_id,
            view: self.view,
            validators: self.validator_set@,
            tallies: self.signature_sets@.map_values(
                |entry: (SignatureSet, TotalPower)| (entry.0@, entry.1.0 as nat),
            ),
        }
    }
}

impl PhaseVoteCollector {
    pub fn new(chain_id: ChainID, view: ViewNumber, validator_set: ValidatorSet) -> (r: Self)
        ensures
            r@ == fresh_collector(chain_id, view, validator_set@),
            collector_sound(r@),
            collector_valid(r@),
    {
        let count: usize = validator_set.len();
        let r = PhaseVoteCollector {
            chain_id,
            view,
            validator_set,
            signature_sets: Table::new(),
        };
        assert(r@.tallies =~= Map::empty());
        assert(r@.validators.len() == count);
        r
    }

    pub fn chain_id(&self) -> (r: ChainID)
        ensures
            r == self@.chain_id,
    {
        self.chain_id
    }

    /// The view that votes are collected for.
    pub fn collecting_view(&self) -> (r: ViewNumber)
        ensures
            r == self@.view,
    {
        self.view
    }

    pub fn validator_set(&self) -> (r: &ValidatorSet)
        ensures
            r@ == self@.validators,
    {
        &self.validator_set
    }

    /// Collect a vote. Returns the certificate that it completes.
    pub fn collect(&mut self, signer: &VerifyingKey, phase_vote: PhaseVote) -> (r: Option<
        PhaseCertificate,
    >)
        requires
            collector_sound(old(self)@),
        ensures
            collector_sound(final(self)@),
            final(self)@ == collected(old(self)@, *signer, phase_vote).0,
            match r {
                Some(pc) => {
                    &&& collected(old(self)@, *signer, phase_vote).1 == Some(pc.signatures@)
                    &&& pc.chain_id == phase_vote.chain_id
                    &&& pc.view == phase_vote.view
                    &&& pc.block == phase_vote.block
                    &&& pc.phase == phase_vote.phase
                },
                None => collected(old(self)@, *signer, phase_vote).1 is None,
            },
    {
        if self.chain_id != phase_vote.chain_id || self.view != phase_vote.view {
            return None;
        }
        let at: usize = match self.validator_set.position(signer) {
            Some(at) => at,
            None => {
                return None;
            },
        };
        let key = VoteKey { block: phase_vote.block, phase: phase_vote.phase };
        let (mut signatures, power) = match self.signature_sets.get(&key) {
            Some(entry) => (entry.0.clone(), entry.1.0),
            None => (SignatureSet::new(self.validator_set.len()), 0u128),
        };
        let ghost before = signatures@;
        proof {
            assert(self@.tallies.contains_key(key) <==> self.signature_sets@.contains_key(key));
            lemma_no_signed_power(self@.validators);
            assert(signatures@ =~= tally_of(self@, key).0);
            assert(power == tally_of(self@, key).1);
        }
        if signatures.get(at).is_some() {
            return None;
        }
        proof {
            lemma_signed_power_update(
                before,
                self@.validators,
                at as int,
                phase_vote.signature,
            );
            certificates::lemma_signed_power_bound(
                before.update(at as int, Some(phase_vote.signature)),
                self@.validators,
            );
            certificates::lemma_power_sum_fits(self@.validators);
        }
        signatures.set(at, Some(phase_vote.signature));
        let power: u128 = power + self.validator_set.entries[at].1.0 as u128;
        if power >= self.validator_set.quorum().0 {
            self.signature_sets.remove(&key);
            assert(self@.tallies =~= old(self)@.tallies.remove(key));
            return Some(
                PhaseCertificate {
                    chain_id: self.chain_id,
                    view: self.view,
                    block: phase_vote.block,
                    phase: phase_vote.phase,
                    signatures,
                },
            );
        }
        let ghost entry = (signatures@, power as nat);
        self.signature_sets.insert(key, (signatures, TotalPower(power)));
        assert(self@.tallies =~= old(self)@.tallies.insert(key, entry));
        None
    }
}

/// The collectors of a view: one for the committed validators and, during a change of
/// validators, one for the previous ones.
pub struct ActiveCollectorPair {
    pub committed: PhaseVoteCollector,
    pub previous: Option<PhaseVoteCollector>,
}

/// What an [`ActiveCollectorPair`] holds.
#[verifier::ext_equal]
pub struct CollectorsView {
    pub committed: CollectorView,
    pub previous: Option<CollectorView>,
}

impl View for ActiveCollectorPair {
    type V = CollectorsView;

    open spec fn view(&self) -> CollectorsView {
        CollectorsView {
            committed: self.committed@,
            previous: match self.previous {
                Some(previous) => Some(previous@),
                None => None,
            },
        }
    }
}

/// Whether both collectors are sound.
pub open spec fn collectors_sound(collectors: CollectorsView) -> bool {
    &&& collector_sound(collectors.committed)
    &&& collectors.previous matches Some(previous) ==> collector_sound(previous)
}

/// Fresh collectors for a view.
pub open spec fn fresh_collectors(
    chain_id: ChainID,
    view: ViewNumber,
    validators: ValidatorsView,
) -> CollectorsView {
    CollectorsView {
        committed: fresh_collector(chain_id, view, validators.committed),
        previous: if validators.update_decided {
            None
        } else {
            Some(fresh_collector(chain_id, view, validators.previous))
        },
    }
}

/// Collectors after the validator sets changed: a collector whose set is still the one to collect
/// for goes on, any other starts afresh.
pub open spec fn refreshed_collectors(
    collectors: CollectorsView,
    validators: ValidatorsView,
) -> CollectorsView {
    let chain_id = collectors.committed.chain_id;
    let view = collectors.committed.view;
    CollectorsView {
        committed: if collectors.committed.validators == validators.committed {
            collectors.committed
        } else {
            fresh_collector(chain_id, view, validators.committed)
        },
        previous: if validators.update_decided {
            None
        } else {
            match collectors.previous {
                Some(previous) => if previous.validators == validators.previous {
                    Some(previous)
                } else {
                    Some(fresh_collector(chain_id, view, validators.previous))
                },
                None => Some(fresh_collector(chain_id, view, validators.previous)),
            }
        },
    }
}

/// What a vote does to a pair of collectors: it goes to the collector of the committed validators
/// and, if that completes no certificate, to the other one.
pub open spec fn pair_collected(
    collectors: CollectorsView,
    signer: VerifyingKey,
    vote: PhaseVote,
) -> (CollectorsView, Option<Seq<Option<SignatureBytes>>>) {
    let (committed, signatures) = collected(collectors.committed, signer, vote);
    match signatures {
        Some(signatures) => (CollectorsView { committed, ..collectors }, Some(signatures)),
        None => match collectors.previous {
            None => (CollectorsView { committed, previous: None }, None),
            Some(previous) => {
                let (previous, signatures) = collected(previous, signer, vote);
                (CollectorsView { committed, previous: Some(previous) }, signatures)
            },
        },
    }
}

impl ActiveCollectorPair {
    pub fn new(
        chain_id: ChainID,
        view: ViewNumber,
        validator_set_state: &ValidatorSetState,
    ) -> (r: Self)
        ensures
            r@ == fresh_collectors(chain_id, view, validator_set_state@),
            collectors_sound(r@),
    {
        let committed = PhaseVoteCollector::new(
            chain_id,
            view,
            validator_set_state.committed_validator_set.clone(),
        );
        let previous = if validator_set_state.update_decided {
            None
        } else {
            Some(
                PhaseVoteCollector::new(
                    chain_id,
                    view,
                    validator_set_state.previous_validator_set.clone(),
                ),
            )
        };
        ActiveCollectorPair { committed, previous }
    }

    /// Adapt to the validator sets as they are now.
    pub fn update_validator_sets(&mut self, validator_set_state: &ValidatorSetState)
        requires
            collectors_sound(old(self)@),
        ensures
            final(self)@ == refreshed_collectors(old(self)@, validator_set_state@),
            collectors_sound(final(self)@),
    {
        let chain_id = self.committed.chain_id;
        let view = self.committed.view;
        if !same_entries(
            &*self.committed.validator_set.entries,
            &*validator_set_state.committed_validator_set.entries,
        ) {
            self.committed = PhaseVoteCollector::new(
                chain_id,
                view,
                validator_set_state.committed_validator_set.clone(),
            );
        }
        if validator_set_state.update_decided {
            self.previous = None;
        } else {
            let keep = match &self.previous {
                Some(previous) => same_entries(
                    &*previous.validator_set.entries,
                    &*validator_set_state.previous_validator_set.entries,
                ),
                None => false,
            };
            if !keep {
                self.previous = Some(
                    PhaseVoteCollector::new(
                        chain_id,
                        view,
                        validator_set_state.previous_validator_set.clone(),
                    ),
                );
            }
        }
        assert(self@ =~= refreshed_collectors(old(self)@, validator_set_state@));
    }

    /// Collect a vote. Returns the certificate that it completes.
    pub fn collect(&mut self, signer: &VerifyingKey, phase_vote: PhaseVote) -> (r: Option<
        PhaseCertificate,
    >)
        requires
            collectors_sound(old(self)@),
        ensures
            collectors_sound(final(self)@),
            final(self)@ == pair_collected(old(self)@, *signer, phase_vote).0,
            match r {
                Some(pc) => {
                    &&& pair_collected(old(self)@, *signer, phase_vote).1 == Some(pc.signatures@)
                    &&& pc.chain_id == phase_vote.chain_id
                    &&& pc.view == phase_vote.view
                    &&& pc.block == phase_vote.block
                    &&& pc.phase == phase_vote.phase
                },
                None => pair_collected(old(self)@, *signer, phase_vote).1 is None,
            },
    {
        match self.committed.collect(signer, phase_vote) {
            Some(pc) => {
                return Some(pc);
            },
            None => {},
        }
        let mut previous: Option<PhaseVoteCollector> = None;
        std::mem::swap(&mut previous, &mut self.previous);
        match previous {
            Some(mut collector) => {
                let r = collector.collect(signer, phase_vote);
                self.previous = Some(collector);
                r
            },
            None => {
                self.previous = None;
                None
            },
        }
    }
}

/// What a [`NECollector`] holds.
#[verifier::ext_equal]
pub struct NEView {
    pub view: ViewNumber,
    pub high_tip_qc_view: ViewNumber,
    pub validators: Seq<(VerifyingKey, Power)>,
    pub signatures: Seq<Option<SignatureBytes>>,
    pub voters: Seq<VerifyingKey>,
}

/// Whether an [`NEView`] has a place for each validator, and holds valid signatures only.
pub open spec fn ne_sound(collector: NEView) -> bool {
    &&& collector.validators.len() <= usize::MAX
    &&& collector.signatures.len() == collector.validators.len()
    &&& certificates::signatures_valid(
        collector.signatures,
        collector.validators,
        codec::ne_message(collector.view, collector.high_tip_qc_view),
    )
}

/// Whether a testimony counts: it is for the collector's view and tip, by a validator that was not
/// seen to vote and has not testified before, and it is signed.
pub open spec fn ne_counts(
    collector: NEView,
    signer: VerifyingKey,
    view: ViewNumber,
    high_tip_qc_view: ViewNumber,
    signature: SignatureBytes,
) -> bool {
    &&& view == collector.view
    &&& high_tip_qc_view == collector.high_tip_qc_view
    &&& !collector.voters.contains(signer)
    &&& validator_set::has_validator(collector.validators, signer)
    &&& collector.signatures[validator_set::position_of(collector.validators, signer)] is None
    &&& signer.accepts(codec::ne_message(view, high_tip_qc_view), signature)
}

/// A collector after a testimony.
pub open spec fn ne_collected(
    collector: NEView,
    signer: VerifyingKey,
    view: ViewNumber,
    high_tip_qc_view: ViewNumber,
    signature: SignatureBytes,
) -> NEView {
    if ne_counts(collector, signer, view, high_tip_qc_view, signature) {
        NEView {
            signatures: collector.signatures.update(
                validator_set::position_of(collector.validators, signer),
                Some(signature),
            ),
            ..collector
        }
    } else {
        collector
    }
}

/// Collects testimonies of validators that did not vote for a high tip.
pub struct NECollector {
    pub view: ViewNumber,
    pub high_tip_qc_view: ViewNumber,
    pub validator_set: ValidatorSet,
    pub signature_set: SignatureSet,
    pub signature_set_power: TotalPower,
    pub voters: Vec<VerifyingKey>,
}

impl View for NECollector {
    type V = NEView;

    open spec fn view(&self) -> NEView {
        NEView {
            view: self.view,
            high_tip_qc_view: self.high_tip_qc_view,
            validators: self.validator_set@,
            signatures: self.signature_set@,
            voters: self.voters@,
        }
    }
}

impl NECollector {
    /// Whether the collector is sound and counts exactly the power of those that signed.
    pub open spec fn wf(&self) -> bool {
        &&& ne_sound(self@)
        &&& self.signature_set_power.0 == certificates::signed_power(self.signature_set@, self.validator_set@)
    }

    pub fn new(view: ViewNumber, high_tip_qc_view: ViewNumber, validator_set: ValidatorSet) -> (r:
        Self)
        ensures
            r.wf(),
            r@ == (NEView {
                view,
                high_tip_qc_view,
                validators: validator_set@,
                signatures: no_signatures(validator_set@.len()),
                voters: Seq::empty(),
            }),
    {
        let count: usize = validator_set.len();
        let signature_set = SignatureSet::new(count);
        proof {
            lemma_no_signed_power(validator_set@);
            assert(signature_set@ =~= no_signatures(validator_set@.len()));
        }
        let r = NECollector {
            view,
            high_tip_qc_view,
            validator_set,
            signature_set,
            signature_set_power: TotalPower(0),
            voters: Vec::new(),
        };
        assert(r@.voters =~= Seq::empty());
        r
    }

    /// Note that `voter` was seen to vote for the high tip; its testimony counts no more.
    pub fn register_voter(&mut self, voter: VerifyingKey)
        requires
            old(self).wf(),
        ensures
            final(self).wf(),
            final(self)@ == (NEView {
                voters: if old(self)@.voters.contains(voter) {
                    old(self)@.voters
                } else {
                    old(self)@.voters.push(voter)
                },
                ..old(self)@
            }),
    {
        if !contains_key(&self.voters, &voter) {
            self.voters.push(voter);
        }
    }

    /// Collect a testimony. Returns the certificate once a quorum has testified.
    pub fn collect(
        &mut self,
        signer: &VerifyingKey,
        ne_view: ViewNumber,
        ne_high_tip_qc_view: ViewNumber,
        signature: SignatureBytes,
    ) -> (r: Option<NoEndorsementCertificate>)
        requires
            old(self).wf(),
        ensures
            final(self).wf(),
            final(self)@ == ne_collected(
                old(self)@,
                *signer,
                ne_view,
                ne_high_tip_qc_view,
                signature,
            ),
            match r {
                Some(nec) => {
                    &&& ne_counts(old(self)@, *signer, ne_view, ne_high_tip_qc_view, signature)
                    &&& nec.view == ne_view
                    &&& nec.high_tip_qc_view == ne_high_tip_qc_view
                    &&& nec.signatures@ == final(self)@.signatures
                    &&& certificates::nec_signed_by(nec, old(self)@.validators)
                },
                None => ne_counts(old(self)@, *signer, ne_view, ne_high_tip_qc_view, signature)
                    ==> certificates::signed_power(final(self)@.signatures, final(self)@.validators)
                    < validator_set::quorum_power(validator_set::power_sum(final(self)@.validators)),
            },
    {
        if ne_view != self.view || ne_high_tip_qc_view != self.high_tip_qc_view {
            return None;
        }
        if contains_key(&self.voters, signer) {
            return None;
        }
        let at: usize = match self.validator_set.position(signer) {
            Some(at) => at,
            None => {
                return None;
            },
        };
        if self.signature_set.get(at).is_some() {
            return None;
        }
        let message = encode_ne_message(ne_view, ne_high_tip_qc_view);
        if !signer.verify(&message, &signature) {
            return None;
        }
        let ghost before = self.signature_set@;
        proof {
            lemma_signed_power_update(before, self.validator_set@, at as int, signature);
            certificates::lemma_signed_power_bound(
                before.update(at as int, Some(signature)),
                self.validator_set@,
            );
            certificates::lemma_power_sum_fits(self.validator_set@);
        }
        self.signature_set.set(at, Some(signature));
        self.signature_set_power = TotalPower(
            self.signature_set_power.0 + self.validator_set.entries[at].1.0 as u128,
        );
        proof {
            let after = self.signature_set@;
            assert forall|i: int|
                0 <= i < after.len() && (#[trigger] after[i]) is Some implies self.validator_set@[i].0.accepts(
                message@,
                after[i]->0,
            ) by {
                if i != at {
                    assert(before[i] is Some);
                }
            }
        }
        if self.signature_set_power.0 >= self.validator_set.quorum().0 {
            Some(
                NoEndorsementCertificate {
                    view: self.view,
                    high_tip_qc_view: self.high_tip_qc_view,
                    signatures: self.signature_set.clone(),
                },
            )
        } else {
            None
        }
    }
}

/// Whether `key` occurs in `keys`.
pub fn contains_key(keys: &Vec<VerifyingKey>, key: &VerifyingKey) -> (r: bool)
    ensures
        r == keys@.contains(*key),
{
    let mut i: usize = 0;
    while i < keys.len()
        invariant
            i <= keys@.len(),
            forall|j: int| 0 <= j < i ==> keys@[j] != *key,
        decreases keys@.len() - i,
    {
        if keys[i] == *key {
            assert(keys@[i as int] == *key);
            return true;
        }
        i = i + 1;
    }
    false
}

} // verus!

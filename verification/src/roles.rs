//! Who leads a view, who may vote, and to whom votes go.

use vstd::prelude::*;

use crate::codec::put_u64;
use crate::hotstuff::certificates;
use crate::hotstuff::certificates::is_signed_by_quorum;
use crate::hotstuff::messages::{NewView, PhaseVote};
use crate::hotstuff::reputation::{LeaderReputation, LeaderReputationEntry};
use crate::hotstuff::types::{Phase, PhaseCertificate};
use crate::pacemaker::TimeoutCertificate;
use crate::types::data_types::{ChainID, Power, VerifyingKey, ViewNumber};
use crate::types::validator_set;
use crate::types::validator_set::{ValidatorSet, ValidatorSetState, ValidatorsView};

verus! {

/// How roles are given out. Every answer depends on the arguments alone, so that all replicas
/// with the same validators and the same records agree.
pub trait Roles {
    /// The leader of `view`.
    spec fn leader(
        &self,
        view: ViewNumber,
        validators: Seq<(VerifyingKey, Power)>,
        records: Seq<([u8; 32], LeaderReputationEntry)>,
    ) -> VerifyingKey;

    fn select_leader_with_reputation(
        &self,
        view: ViewNumber,
        validator_set: &ValidatorSet,
        reputation: &LeaderReputation,
    ) -> (r: VerifyingKey)
        ensures
            r == self.leader(view, validator_set@, reputation.entries@),
    ;

    /// Whether `replica` may propose in `view`.
    spec fn proposes(
        &self,
        replica: VerifyingKey,
        view: ViewNumber,
        validators: ValidatorsView,
        records: Seq<([u8; 32], LeaderReputationEntry)>,
    ) -> bool;

    fn is_proposer_with_reputation(
        &self,
        replica: &VerifyingKey,
        view: ViewNumber,
        validator_set_state: &ValidatorSetState,
        reputation: &LeaderReputation,
    ) -> (r: bool)
        ensures
            r == self.proposes(*replica, view, validator_set_state@, reputation.entries@),
    ;

    /// Whether `replica` may vote on a proposal or nudge that carries `justify`.
    spec fn votes(
        &self,
        replica: VerifyingKey,
        validators: ValidatorsView,
        justify: PhaseCertificate,
    ) -> bool;

    fn is_phase_voter(
        &self,
        replica: &VerifyingKey,
        validator_set_state: &ValidatorSetState,
        justify: &PhaseCertificate,
    ) -> (r: bool)
        ensures
            r == self.votes(*replica, validator_set_state@, *justify),
    ;

    /// Who collects `vote`.
    spec fn vote_recipient(
        &self,
        vote: PhaseVote,
        validators: ValidatorsView,
        records: Seq<([u8; 32], LeaderReputationEntry)>,
    ) -> VerifyingKey;

    fn phase_vote_recipient_with_reputation(
        &self,
        vote: &PhaseVote,
        validator_set_state: &ValidatorSetState,
        reputation: &LeaderReputation,
    ) -> (r: VerifyingKey)
        ensures
            r == self.vote_recipient(*vote, validator_set_state@, reputation.entries@),
    ;

    /// The next leaders, who are told of a view that was left: that of the committed validators
    /// and, during a change of validators, that of the previous ones.
    spec fn next_leaders(
        &self,
        new_view: NewView,
        validators: ValidatorsView,
        records: Seq<([u8; 32], LeaderReputationEntry)>,
    ) -> (VerifyingKey, Option<VerifyingKey>);

    fn new_view_recipients_with_reputation(
        &self,
        new_view: &NewView,
        validator_set_state: &ValidatorSetState,
        reputation: &LeaderReputation,
    ) -> (r: (VerifyingKey, Option<VerifyingKey>))
        ensures
            r == self.next_leaders(*new_view, validator_set_state@, reputation.entries@),
    ;

    /// Whether a timeout certificate is correct.
    spec fn accepts_timeout(&self, tc: TimeoutCertificate, validators: ValidatorsView) -> bool;

    fn is_timeout_certificate_correct(
        &self,
        tc: &TimeoutCertificate,
        validator_set_state: &ValidatorSetState,
    ) -> (r: bool)
        ensures
            r == self.accepts_timeout(*tc, validator_set_state@),
    ;
}

/// The key that stands for no leader, where there is no validator.
pub open spec fn no_leader() -> VerifyingKey {
    VerifyingKey { bytes: vstd::array::spec_array_fill_for_copy_type::<u8, 32>(0u8) }
}

/// The validator whose turn it is in a view, where turns go round.
pub open spec fn leader_in_turn(
    view: ViewNumber,
    validators: Seq<(VerifyingKey, Power)>,
) -> VerifyingKey {
    if validators.len() == 0 {
        no_leader()
    } else {
        validators[view.0 as int % validators.len() as int].0
    }
}

/// The view after a view, as far as there is one.
pub open spec fn next_view(view: ViewNumber) -> ViewNumber {
    if view.0 < u64::MAX {
        ViewNumber((view.0 + 1) as u64)
    } else {
        view
    }
}

/// What a replica signs when it times out in a view.
pub open spec fn timeout_message(chain_id: ChainID, view: ViewNumber) -> Seq<u8> {
    vstd::bytes::spec_u64_to_le_bytes(chain_id.0) + vstd::bytes::spec_u64_to_le_bytes(view.0)
}

/// Roles that go round: the validators lead in turn, whatever their records. While a change of
/// validators is not decided, the previous validators propose and vote too, but for the last phase
/// of the block that changes them.
#[derive(Clone, Copy, Debug)]
pub struct RoundRobin;

impl RoundRobin {
    fn turn(view: ViewNumber, validator_set: &ValidatorSet) -> (r: VerifyingKey)
        ensures
            r == leader_in_turn(view, validator_set@),
    {
        let count: usize = validator_set.len();
        if count == 0 {
            return VerifyingKey { bytes: [0u8; 32] };
        }
        let place: u64 = view.0 % (count as u64);
        validator_set.key_at(place as usize)
    }

    fn after(view: ViewNumber) -> (r: ViewNumber)
        ensures
            r == next_view(view),
    {
        if view.0 < u64::MAX {
            ViewNumber(view.0 + 1)
        } else {
            view
        }
    }
}

impl Roles for RoundRobin {
    open spec fn leader(
        &self,
        view: ViewNumber,
        validators: Seq<(VerifyingKey, Power)>,
        records: Seq<([u8; 32], LeaderReputationEntry)>,
    ) -> VerifyingKey {
        leader_in_turn(view, validators)
    }

    fn select_leader_with_reputation(
        &self,
        view: ViewNumber,
        validator_set: &ValidatorSet,
        reputation: &LeaderReputation,
    ) -> (r: VerifyingKey) {
        Self::turn(view, validator_set)
    }

    open spec fn proposes(
        &self,
        replica: VerifyingKey,
        view: ViewNumber,
        validators: ValidatorsView,
        records: Seq<([u8; 32], LeaderReputationEntry)>,
    ) -> bool {
        replica == leader_in_turn(view, validators.committed) || (!validators.update_decided
            && replica == leader_in_turn(view, validators.previous))
    }

    fn is_proposer_with_reputation(
        &self,
        replica: &VerifyingKey,
        view: ViewNumber,
        validator_set_state: &ValidatorSetState,
        reputation: &LeaderReputation,
    ) -> (r: bool) {
        *replica == Self::turn(view, &validator_set_state.committed_validator_set) || (
        !validator_set_state.update_decided && *replica == Self::turn(
            view,
            &validator_set_state.previous_validator_set,
        ))
    }

    open spec fn votes(
        &self,
        replica: VerifyingKey,
        validators: ValidatorsView,
        justify: PhaseCertificate,
    ) -> bool {
        if validators.update_decided || justify.phase == Phase::Commit {
            validator_set::has_validator(validators.committed, replica)
        } else {
            validator_set::has_validator(validators.previous, replica)
        }
    }

    fn is_phase_voter(
        &self,
        replica: &VerifyingKey,
        validator_set_state: &ValidatorSetState,
        justify: &PhaseCertificate,
    ) -> (r: bool) {
        if validator_set_state.update_decided || justify.phase.is_commit() {
            validator_set_state.committed_validator_set.contains(replica)
        } else {
            validator_set_state.previous_validator_set.contains(replica)
        }
    }

    open spec fn vote_recipient(
        &self,
        vote: PhaseVote,
        validators: ValidatorsView,
        records: Seq<([u8; 32], LeaderReputationEntry)>,
    ) -> VerifyingKey {
        if validators.update_decided || vote.phase == Phase::Decide {
            leader_in_turn(next_view(vote.view), validators.committed)
        } else {
            leader_in_turn(next_view(vote.view), validators.previous)
        }
    }

    fn phase_vote_recipient_with_reputation(
        &self,
        vote: &PhaseVote,
        validator_set_state: &ValidatorSetState,
        reputation: &LeaderReputation,
    ) -> (r: VerifyingKey) {
        let view = Self::after(vote.view);
        if validator_set_state.update_decided || vote.phase.is_decide() {
            Self::turn(view, &validator_set_state.committed_validator_set)
        } else {
            Self::turn(view, &validator_set_state.previous_validator_set)
        }
    }

    open spec fn next_leaders(
        &self,
        new_view: NewView,
        validators: ValidatorsView,
        records: Seq<([u8; 32], LeaderReputationEntry)>,
    ) -> (VerifyingKey, Option<VerifyingKey>) {
        (
            leader_in_turn(next_view(new_view.view), validators.committed),
            if validators.update_decided {
                None
            } else {
                Some(leader_in_turn(next_view(new_view.view), validators.previous))
            },
        )
    }

    fn new_view_recipients_with_reputation(
        &self,
        new_view: &NewView,
        validator_set_state: &ValidatorSetState,
        reputation: &LeaderReputation,
    ) -> (r: (VerifyingKey, Option<VerifyingKey>)) {
        let view = Self::after(new_view.view);
        (
            Self::turn(view, &validator_set_state.committed_validator_set),
            if validator_set_state.update_decided {
                None
            } else {
                Some(Self::turn(view, &validator_set_state.previous_validator_set))
            },
        )
    }

    open spec fn accepts_timeout(&self, tc: TimeoutCertificate, validators: ValidatorsView) -> bool {
        let message = timeout_message(tc.chain_id, tc.view);
        certificates::quorum_signed(
            tc.signatures@,
            validators.committed,
            message,
        ) || (!validators.update_decided
            && certificates::quorum_signed(tc.signatures@, validators.previous, message))
    }

    fn is_timeout_certificate_correct(
        &self,
        tc: &TimeoutCertificate,
        validator_set_state: &ValidatorSetState,
    ) -> (r: bool) {
        let mut message: Vec<u8> = Vec::new();
        put_u64(&mut message, tc.chain_id.0);
        put_u64(&mut message, tc.view.0);
        assert(message@ =~= timeout_message(tc.chain_id, tc.view));
        is_signed_by_quorum(
            &tc.signatures,
            &validator_set_state.committed_validator_set,
            &message,
        ) || (!validator_set_state.update_decided && is_signed_by_quorum(
            &tc.signatures,
            &validator_set_state.previous_validator_set,
            &message,
        ))
    }
}

/// The leader of a view is one of the validators. Validators lead in turn: as many views later as there
/// are validators the same one leads again, and in that many consecutive views each of them leads
/// once.
pub proof fn law_validators_lead_in_turn(
    view: ViewNumber,
    validators: Seq<(VerifyingKey, Power)>,
    later: ViewNumber,
    place: int,
)
    requires
        0 <= place < validators.len(),
    ensures
        exists|i: int|
            0 <= i < validators.len() && (#[trigger] validators[i]).0 == leader_in_turn(
                view,
                validators,
            ),
        later.0 == view.0 + validators.len() ==> leader_in_turn(later, validators)
            == leader_in_turn(view, validators),
        view.0 + validators.len() <= u64::MAX ==> exists|turn: int|
            0 <= turn < validators.len() && #[trigger] leader_in_turn(
                ViewNumber((view.0 + turn) as u64),
                validators,
            ) == validators[place].0,
{
    let n = validators.len() as int;
    let v = view.0 as int;
    let at = v % n;
    assert(0 <= at < n && (v + n) % n == at) by (nonlinear_arith)
        requires
            n > 0,
            at == v % n,
    ;
    assert(validators[at].0 == leader_in_turn(view, validators));
    if view.0 + validators.len() <= u64::MAX {
        let turn = if place >= at {
            place - at
        } else {
            place + n - at
        };
        assert((v + turn) % n == place) by {
            vstd::arithmetic::div_mod::lemma_fundamental_div_mod(v, n);
            let q = v / n;
            if place >= at {
                assert(v + turn == q * n + place) by (nonlinear_arith)
                    requires
                        v == n * q + at,
                        turn == place - at,
                ;
                vstd::arithmetic::div_mod::lemma_fundamental_div_mod_converse(
                    v + turn,
                    n,
                    q,
                    place,
                );
            } else {
                assert(v + turn == (q + 1) * n + place) by (nonlinear_arith)
                    requires
                        v == n * q + at,
                        turn == place + n - at,
                ;
                vstd::arithmetic::div_mod::lemma_fundamental_div_mod_converse(
                    v + turn,
                    n,
                    q + 1,
                    place,
                );
            }
        }
        assert(leader_in_turn(ViewNumber((view.0 + turn) as u64), validators)
            == validators[place].0);
    }
}

/// Who counts a vote, and who is told of a view that was left, may propose in the view after it: a
/// certificate that is collected there, and the highest certificate that is reported there, are where
/// the next block is proposed.
pub proof fn law_votes_and_new_views_reach_a_proposer(
    vote: PhaseVote,
    new_view: NewView,
    validators: ValidatorsView,
    records: Seq<([u8; 32], LeaderReputationEntry)>,
)
    ensures
        ({
            let roles = RoundRobin;
            let counter = roles.vote_recipient(vote, validators, records);
            let (first, second) = roles.next_leaders(new_view, validators, records);
            &&& vote.view.0 < u64::MAX ==> roles.proposes(
                counter,
                ViewNumber((vote.view.0 + 1) as u64),
                validators,
                records,
            )
            &&& new_view.view.0 < u64::MAX ==> roles.proposes(
                first,
                ViewNumber((new_view.view.0 + 1) as u64),
                validators,
                records,
            )
            &&& new_view.view.0 < u64::MAX && second is Some ==> roles.proposes(
                second->0,
                ViewNumber((new_view.view.0 + 1) as u64),
                validators,
                records,
            )
            &&& second is Some <==> !validators.update_decided
        }),
{
}

/// Whoever proposes in a view is told of the view before when it is left.
pub proof fn law_every_proposer_is_told(
    proposer: VerifyingKey,
    new_view: NewView,
    validators: ValidatorsView,
    records: Seq<([u8; 32], LeaderReputationEntry)>,
)
    requires
        new_view.view.0 < u64::MAX,
        RoundRobin.proposes(
            proposer,
            ViewNumber((new_view.view.0 + 1) as u64),
            validators,
            records,
        ),
    ensures
        RoundRobin.next_leaders(new_view, validators, records).0 == proposer
            || RoundRobin.next_leaders(new_view, validators, records).1 == Some(proposer),
{
}

/// Only validators vote. Once a change of validators is decided only the committed ones do; until
/// then, only the previous ones, but for the last phase of the change, in which the committed ones
/// do.
pub proof fn law_who_votes(
    replica: VerifyingKey,
    validators: ValidatorsView,
    justify: PhaseCertificate,
)
    ensures
        validators.update_decided ==> (RoundRobin.votes(replica, validators, justify)
            <==> validator_set::power_of(validators.committed, replica) is Some),
        !validators.update_decided && justify.phase == Phase::Commit ==> (RoundRobin.votes(
            replica,
            validators,
            justify,
        ) <==> validator_set::power_of(validators.committed, replica) is Some),
        !validators.update_decided && justify.phase != Phase::Commit ==> (RoundRobin.votes(
            replica,
            validators,
            justify,
        ) <==> validator_set::power_of(validators.previous, replica) is Some),
{
}

/// A timeout certificate is correct exactly if a quorum of the committed validators signed its chain
/// and view or, while a change of validators is not decided, a quorum of the previous ones did.
pub proof fn law_timeout_certificates_are_signed(
    tc: TimeoutCertificate,
    validators: ValidatorsView,
)
    ensures
        ({
            let message = timeout_message(tc.chain_id, tc.view);
            let by_committed = certificates::quorum_signed(
                tc.signatures@,
                validators.committed,
                message,
            );
            let by_previous = certificates::quorum_signed(
                tc.signatures@,
                validators.previous,
                message,
            );
            &&& by_committed ==> RoundRobin.accepts_timeout(tc, validators)
            &&& validators.update_decided && !by_committed ==> !RoundRobin.accepts_timeout(
                tc,
                validators,
            )
            &&& !validators.update_decided && !by_committed ==> (RoundRobin.accepts_timeout(
                tc,
                validators,
            ) <==> by_previous)
        }),
{
}

} // verus!

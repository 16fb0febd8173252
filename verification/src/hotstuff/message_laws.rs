//! What a replica does about the messages that it receives.

use vstd::prelude::*;

use crate::block_tree::commit::CommittedBlock;
use crate::block_tree::effect_laws;
use crate::block_tree::invariants;
use crate::block_tree::speculation;
use crate::block_tree::store;
use crate::block_tree::tree;
use crate::block_tree::updates;
use crate::block_tree::variables;
use crate::block_tree::write_batch::{Change, WriteOp};
use crate::codec;
use crate::committed_feed;
use crate::effects::{Deed, Effect};
use crate::events::Event;
use crate::hotstuff::acting;
use crate::hotstuff::bodies;
use crate::hotstuff::certificate_laws;
use crate::hotstuff::certificates;
use crate::hotstuff::collectors;
use crate::hotstuff::collectors::{CollectorView, CollectorsView, VoteKey};
use crate::hotstuff::handlers;
use crate::hotstuff::messages::{
    BlockDataRequest, BlockDataResponse, HotStuffMessage, NEMessage, NERequest, NewView, Nudge,
    PhaseVote, Proposal, ProposalRequest, ProposalResponse,
};
use crate::hotstuff::proposal_laws;
use crate::hotstuff::proposing;
use crate::hotstuff::proposing::Occasion;
use crate::hotstuff::speaking;
use crate::hotstuff::state;
use crate::hotstuff::state::{HsView, RecoveryView, Run};
use crate::hotstuff::types::{NoEndorsementCertificate, Phase, PhaseCertificate};
use crate::hotstuff::view_laws;
use crate::hotstuff::voting;
use crate::pacemaker::{TimeoutCertificate, TipInfo};
use crate::roles::Roles;
use crate::types::data_types::{CryptoHash, Power, SignatureBytes, VerifyingKey};
use crate::types::validator_set;
use crate::types::validator_set::ValidatorSetUpdatesStatus;

verus! {

/// What a vote for a further phase says and leaves.
pub(crate) proof fn lemma_phase_voted<R: Roles>(
    run: Run,
    roles: R,
    block: CryptoHash,
    phase: Phase,
)
    ensures
        ({
            let after = voting::phase_voted(run, roles, block, phase);
            let vote = voting::vote_of(run.hs, block, phase);
            let to = roles.vote_recipient(
                vote,
                tree::validators_of(run.tree),
                tree::reputation_of(run.tree).0,
            );
            &&& after.hs == run.hs
            &&& speaking::said(after.done) == speaking::said(run.done).push(
                speaking::to_peer(to, HotStuffMessage::PhaseVote(vote)),
            )
            &&& speaking::is_own_vote(run, vote, block, phase)
            &&& after.tree == store::apply_change(
                run.tree,
                Change::Plain(WriteOp::SetHighestViewPhaseVoted(run.hs.view_info.view)),
            )
        }),
{
    let vote = voting::vote_of(run.hs, block, phase);
    let op = WriteOp::SetHighestViewPhaseVoted(run.hs.view_info.view);
    speaking::lemma_wrote(run, op);
    let recorded = state::did(run, variables::written(op));
    let to = voting::counter_of(run, roles, vote);
    let deed = speaking::to_peer(to, HotStuffMessage::PhaseVote(vote));
    assert(voting::sent(to, HotStuffMessage::PhaseVote(vote)) =~= seq![deed]);
    speaking::lemma_spoke(recorded, deed);
    speaking::lemma_told(state::did(recorded, seq![deed]), Event::PhaseVote { vote });
}

/// The tip that a nudge leaves is written, and that is all.
proof fn lemma_tip_nudged(run: Run, justify: PhaseCertificate)
    ensures
        ({
            let after = handlers::tip_nudged(run, justify);
            &&& after.hs == run.hs
            &&& speaking::said(after.done) == speaking::said(run.done)
            &&& after.tree.highest_view_phase_voted == run.tree.highest_view_phase_voted
            &&& after.tree.highest_pc == run.tree.highest_pc
            &&& after.tree.locked_pc == run.tree.locked_pc
            &&& after.tree.blocks == run.tree.blocks
            &&& tree::validators_of(after.tree) == tree::validators_of(run.tree)
            &&& tree::reputation_of(after.tree) == tree::reputation_of(run.tree)
            &&& run.tree.blocks.contains_key(justify.block) ==> after.tree.local_tip == Some(
                TipInfo {
                    block_hash: run.tree.blocks[justify.block].hash,
                    block_height: run.tree.blocks[justify.block].height,
                    block_justify: justify,
                    block_data_hash: run.tree.blocks[justify.block].data_hash,
                    view: run.hs.view_info.view,
                },
            )
        }),
{
    if run.tree.blocks.contains_key(justify.block) {
        let block = run.tree.blocks[justify.block];
        let tip = TipInfo {
            block_hash: block.hash,
            block_height: block.height,
            block_justify: justify,
            block_data_hash: block.data_hash,
            view: run.hs.view_info.view,
        };
        speaking::lemma_wrote(run, WriteOp::SetLocalTip(tip));
    }
}

/// Whether a vote is the participant's own, in the view that it is in, for the block of a certificate
/// and the phase right after that of the certificate.
pub open spec fn is_vote_for_next_phase(
    run: Run,
    vote: PhaseVote,
    justify: PhaseCertificate,
) -> bool {
    &&& justify.phase == Phase::Prepare ==> speaking::is_own_vote(
        run,
        vote,
        justify.block,
        Phase::Precommit,
    )
    &&& justify.phase == Phase::Precommit ==> speaking::is_own_vote(
        run,
        vote,
        justify.block,
        Phase::Commit,
    )
    &&& justify.phase == Phase::Commit ==> speaking::is_own_vote(
        run,
        vote,
        justify.block,
        Phase::Decide,
    )
}

/// A replica that has a vote, and has not used it in its view, answers a correct and safe nudge with
/// exactly one message: its vote for the phase right after that of the nudge's certificate. That is
/// precommit after prepare, commit after precommit and decide after commit, for the block of the
/// certificate in the view that the replica is in. The vote goes to whom the roles name to collect
/// it. Afterwards the view is recorded as voted in. A replica that has no vote, or has used it, says
/// nothing. In either case the block of the certificate, if the tree holds it, is the replica's tip,
/// and the sender of the nudge is not listened to again in the view.
pub proof fn law_nudges_are_answered_with_the_next_phase<R: Roles>(
    run: Run,
    roles: R,
    nudge: Nudge,
    origin: VerifyingKey,
)
    requires
        tree::initialized(run.tree),
        certificates::pc_correct(run.tree, nudge.justify),
        invariants::nudge_safe(run.tree, nudge, run.hs.view_info.view, run.hs.chain_id),
    ensures
        ({
            let after = handlers::nudge_received(run, roles, nudge, origin);
            let validators = tree::validators_of(after.tree);
            let records = tree::reputation_of(after.tree).0;
            let held = after.tree.blocks[nudge.justify.block];
            &&& after.tree.blocks.contains_key(nudge.justify.block) ==> after.tree.local_tip
                == Some(
                TipInfo {
                    block_hash: held.hash,
                    block_height: held.height,
                    block_justify: nudge.justify,
                    block_data_hash: held.data_hash,
                    view: run.hs.view_info.view,
                },
            )
            &&& !state::still_accepts(after.hs.status, origin)
            &&& if roles.votes(run.hs.keypair.public_key(), validators, nudge.justify)
                && speaking::vote_is_unused(run) {
                &&& after.tree.highest_view_phase_voted == Some(run.hs.view_info.view)
                &&& exists|vote: PhaseVote|
                    {
                        &&& speaking::said(after.done) == speaking::said(run.done).push(
                            speaking::to_peer(
                                roles.vote_recipient(vote, validators, records),
                                HotStuffMessage::PhaseVote(vote),
                            ),
                        )
                        &&& #[trigger] is_vote_for_next_phase(run, vote, nudge.justify)
                    }
            } else {
                &&& speaking::said(after.done) == speaking::said(run.done)
                &&& after.tree.highest_view_phase_voted == run.tree.highest_view_phase_voted
            }
        }),
{
    let received = state::told(run, Event::ReceiveNudge { origin, nudge });
    speaking::lemma_told(run, Event::ReceiveNudge { origin, nudge });
    speaking::lemma_acted(received, roles, nudge.justify);
    let acted = acting::refreshed(acting::acted(received, roles, nudge.justify).0);
    lemma_tip_nudged(acted, nudge.justify);
    let tipped = handlers::tip_nudged(acted, nudge.justify);
    let block = nudge.justify.block;
    let phase = handlers::next_phase(nudge.justify.phase);
    lemma_phase_voted(tipped, roles, block, phase);
    let vote = voting::vote_of(tipped.hs, block, phase);
    assert(speaking::is_own_vote(run, vote, block, phase));
    assert(is_vote_for_next_phase(run, vote, nudge.justify));
}

/// A nudge that is not correct or not safe is not answered, and changes nothing in the tree.
pub proof fn law_unsafe_nudges_are_not_answered<R: Roles>(
    run: Run,
    roles: R,
    nudge: Nudge,
    origin: VerifyingKey,
)
    requires
        !certificates::pc_correct(run.tree, nudge.justify) || !invariants::nudge_safe(
            run.tree,
            nudge,
            run.hs.view_info.view,
            run.hs.chain_id,
        ),
    ensures
        handlers::nudge_received(run, roles, nudge, origin).tree == run.tree,
        speaking::said(handlers::nudge_received(run, roles, nudge, origin).done)
            == speaking::said(run.done),
{
    speaking::lemma_told(run, Event::ReceiveNudge { origin, nudge });
}

/// After a new-view message whose certificate is correct and safe, the highest certificate is the
/// newer of that certificate and the one before, and the lock is at least as new as the certificate
/// unless that is a prepare certificate. The only exception is a certificate that the tree fails to
/// act on because blocks that it needs are missing. A certificate that is not correct or not safe
/// changes nothing. In no case is anything said.
pub proof fn law_new_views_bring_the_highest_certificate<R: Roles>(
    run: Run,
    roles: R,
    new_view: NewView,
    origin: VerifyingKey,
)
    requires
        tree::initialized(run.tree),
    ensures
        ({
            let pc = new_view.highest_pc;
            let after = handlers::new_view_received(run, roles, new_view, origin);
            &&& speaking::said(after.done) == speaking::said(run.done)
            &&& after.tree.highest_view_phase_voted == run.tree.highest_view_phase_voted
            &&& if certificates::pc_correct(run.tree, pc) && invariants::pc_safe(
                run.tree,
                pc,
                run.hs.chain_id,
            ) {
                updates::update_outcome(run.tree, pc, roles, run.retention) is Ok ==> ({
                    &&& (after.tree.highest_pc->0).view.0 >= pc.view.0
                    &&& pc.view.0 > (run.tree.highest_pc->0).view.0 ==> after.tree.highest_pc
                        == Some(pc)
                    &&& pc.view.0 <= (run.tree.highest_pc->0).view.0 ==> after.tree.highest_pc
                        == run.tree.highest_pc
                    &&& pc.phase != Phase::Prepare ==> (after.tree.locked_pc->0).view.0
                        >= pc.view.0
                })
            } else {
                after.tree == run.tree && after.hs == run.hs
            }
        }),
{
    speaking::lemma_told(run, Event::ReceiveNewView { origin, new_view });
    let received = state::told(run, Event::ReceiveNewView { origin, new_view });
    speaking::lemma_acted(received, roles, new_view.highest_pc);
}

/// What taking note of a certificate says and leaves.
proof fn lemma_noted_remotely(run: Run, pc: PhaseCertificate)
    requires
        tree::initialized(run.tree),
    ensures
        ({
            let after = state::did(run, variables::remote_pc_deeds(run.tree, pc));
            &&& after.hs == run.hs
            &&& speaking::said(after.done) == speaking::said(run.done)
            &&& tree::initialized(after.tree)
            &&& after.tree.highest_view_phase_voted == run.tree.highest_view_phase_voted
            &&& after.tree.blocks == run.tree.blocks
            &&& after.tree.locked_pc == run.tree.locked_pc
            &&& after.tree.highest_pc == (if pc.view.0 > (run.tree.highest_pc->0).view.0 {
                Some(pc)
            } else {
                run.tree.highest_pc
            })
        }),
{
    let highest = if updates::is_news(run.tree, pc) {
        seq![Change::Plain(WriteOp::SetHighestPC(pc))]
    } else {
        Seq::empty()
    };
    let changes = highest + updates::decision(pc);
    let events = updates::highest_event(updates::new_highest(run.tree, pc));
    let deeds = variables::remote_pc_deeds(run.tree, pc);
    assert(deeds =~= seq![Deed::Persist(changes)] + events);
    tree::lemma_replay_one(run.tree, Deed::Persist(changes));
    let written = store::apply_changes(run.tree, changes);
    let news = Change::Plain(WriteOp::SetHighestPC(pc));
    let decided = Change::Plain(WriteOp::SetValidatorSetUpdateDecided(true));
    let none = Seq::<Change>::empty();
    store::lemma_apply_push(run.tree, none, news);
    store::lemma_apply_push(run.tree, none, decided);
    store::lemma_apply_push(run.tree, none.push(news), decided);
    assert(changes =~= (if updates::is_news(run.tree, pc) {
        if pc.phase == Phase::Decide {
            none.push(news).push(decided)
        } else {
            none.push(news)
        }
    } else {
        if pc.phase == Phase::Decide {
            none.push(decided)
        } else {
            none
        }
    }));
    tree::lemma_replay_concat(run.tree, seq![Deed::Persist(changes)], events);
    let event = Deed::Other(Effect::Publish(Event::UpdateHighestPC { highest_pc: pc }));
    tree::lemma_replay_one(written, event);
    assert(events =~= seq![event] || events =~= Seq::<Deed>::empty());
    tree::lemma_replay_keeps_initialized(run.tree, deeds);
    speaking::lemma_silent(deeds);
    speaking::lemma_said_concat(run.done, deeds);
    assert(speaking::said(run.done) + Seq::<Deed>::empty() =~= speaking::said(run.done));
}

/// What taking a block as speculatively committed says and leaves.
proof fn lemma_speculated(run: Run, block: CryptoHash)
    ensures
        ({
            let after = state::did(run, speculation::speculate(run.tree, block));
            &&& after.hs == run.hs
            &&& speaking::said(after.done) == speaking::said(run.done)
            &&& after.tree.speculative_commits.contains(block)
            &&& after.tree.blocks == run.tree.blocks
            &&& after.tree.highest_pc == run.tree.highest_pc
            &&& after.tree.locked_pc == run.tree.locked_pc
            &&& after.tree.highest_view_phase_voted == run.tree.highest_view_phase_voted
        }),
{
    let commits = run.tree.speculative_commits;
    if commits.contains(block) {
        crate::hotstuff::state::lemma_did_nothing(run);
    } else {
        let change = Change::SpeculativeCommits(commits.push(block));
        speaking::lemma_persisted(run, seq![change]);
        let none = Seq::<Change>::empty();
        store::lemma_apply_push(run.tree, none, change);
        assert(none.push(change) =~= seq![change]);
        assert(commits.push(block)[commits.len() as int] == block);
    }
}

/// A correct certificate that the replica collected, safe or, where its block is still on its way,
/// allowed by the lock rule, moves the replica on: its highest certificate is then the newer of the
/// two, even if the tree fails to act on the certificate. A generic certificate is broadcast so that
/// all can leave the view, and nothing else is said. The block of a generic certificate that was
/// proposed on top of the certificate of the view before is then speculatively committed.
pub proof fn law_collected_certificates_move_the_replica_on<R: Roles>(
    run: Run,
    roles: R,
    pc: PhaseCertificate,
)
    requires
        tree::initialized(run.tree),
        certificates::pc_correct(run.tree, pc),
        invariants::lock_clause(run.tree, pc),
        invariants::pc_safe(run.tree, pc, run.hs.chain_id) || run.hs.pending_headers.contains_key(
            pc.block,
        ) || run.hs.pending_bodies.contains_key(pc.block),
    ensures
        ({
            let after = handlers::certificate_collected(run, roles, pc);
            &&& (after.tree.highest_pc->0).view.0 >= pc.view.0
            &&& after.tree.highest_pc == (if pc.view.0 > (run.tree.highest_pc->0).view.0 {
                Some(pc)
            } else {
                run.tree.highest_pc
            })
            &&& after.tree.highest_view_phase_voted == run.tree.highest_view_phase_voted
            &&& pc.phase == Phase::Generic ==> speaking::said(after.done) == speaking::said(
                run.done,
            ).push(Deed::Other(Effect::BroadcastAdvanceView(pc)))
            &&& pc.phase != Phase::Generic ==> speaking::said(after.done) == speaking::said(
                run.done,
            )
            &&& pc.phase == Phase::Generic && after.tree.blocks.contains_key(pc.block)
                && after.tree.blocks[pc.block].justify.view.0 + 1 == pc.view.0
                ==> after.tree.speculative_commits.contains(pc.block)
        }),
{
    let event = Event::CollectPC { phase_certificate: pc };
    speaking::lemma_told(run, event);
    let announced = state::told(run, event);
    lemma_noted_remotely(announced, pc);
    let highest = state::did(announced, variables::remote_pc_deeds(announced.tree, pc));
    speaking::lemma_acted(highest, roles, pc);
    let acted = acting::acted(highest, roles, pc).0;
    lemma_speculated(acted, pc.block);
    let speculated = if pc.phase == Phase::Generic && acted.tree.blocks.contains_key(pc.block)
        && acted.tree.blocks[pc.block].justify.view.0 + 1 == pc.view.0 {
        state::did(acted, speculation::speculate(acted.tree, pc.block))
    } else {
        acted
    };
    let fresh = acting::refreshed(speculated);
    speaking::lemma_spoke(fresh, Deed::Other(Effect::BroadcastAdvanceView(pc)));
}

/// A vote that its sender did not sign is not counted, and changes nothing.
pub proof fn law_forged_votes_do_not_count(run: Run, vote: PhaseVote, signer: VerifyingKey)
    requires
        !signer.accepts(
            codec::vote_message(vote.chain_id, vote.view, vote.block, vote.phase),
            vote.signature,
        ),
    ensures
        handlers::vote_counted(run, vote, signer).1 is None,
        handlers::vote_counted(run, vote, signer).0.hs == run.hs,
        handlers::vote_counted(run, vote, signer).0.tree == run.tree,
{
    speaking::lemma_told(run, Event::ReceivePhaseVote { origin: signer, phase_vote: vote });
}

/// Whether a place is the first at which a validator is listed.
pub open spec fn is_place_of(
    validators: Seq<(VerifyingKey, Power)>,
    key: VerifyingKey,
    at: int,
) -> bool {
    &&& 0 <= at < validators.len()
    &&& validators[at].0 == key
    &&& forall|i: int| 0 <= i < at ==> (#[trigger] validators[i]).0 != key
}

proof fn lemma_place_of(validators: Seq<(VerifyingKey, Power)>, key: VerifyingKey, at: int)
    requires
        is_place_of(validators, key, at),
    ensures
        validator_set::position_of(validators, key) == at,
        validator_set::has_validator(validators, key),
    decreases validators.len(),
{
    if at > 0 {
        let rest = validators.drop_first();
        assert forall|i: int| 0 <= i < at - 1 implies (#[trigger] rest[i]).0 != key by {
            assert(rest[i] == validators[i + 1]);
        }
        assert(rest[at - 1] == validators[at]);
        assert(validators[0].0 != key);
        lemma_place_of(rest, key, at - 1);
    }
}

proof fn lemma_no_place(validators: Seq<(VerifyingKey, Power)>, key: VerifyingKey)
    requires
        forall|i: int| 0 <= i < validators.len() ==> (#[trigger] validators[i]).0 != key,
    ensures
        !validator_set::has_validator(validators, key),
    decreases validators.len(),
{
    if validators.len() > 0 {
        let rest = validators.drop_first();
        assert forall|i: int| 0 <= i < rest.len() implies (#[trigger] rest[i]).0 != key by {
            assert(rest[i] == validators[i + 1]);
        }
        assert(validators[0].0 != key);
        lemma_no_place(rest, key);
    }
}

/// A validator's vote for the chain and view of a collector is kept in the validator's place among
/// the signatures for the same block and phase, if there is none yet. As soon as the signers of
/// these have more than two thirds of the power of all, and no sooner, the signatures are handed out
/// to make a certificate. Votes for other blocks or phases are not touched.
pub proof fn law_a_quorum_of_votes_makes_a_certificate(
    collector: CollectorView,
    signer: VerifyingKey,
    vote: PhaseVote,
    at: int,
    other: VoteKey,
)
    requires
        collectors::collector_sound(collector),
        vote.chain_id == collector.chain_id,
        vote.view == collector.view,
        is_place_of(collector.validators, signer, at),
    ensures
        ({
            let key = VoteKey { block: vote.block, phase: vote.phase };
            let before = if collector.tallies.contains_key(key) {
                collector.tallies[key].0
            } else {
                Seq::new(collector.validators.len(), |i: int| None::<SignatureBytes>)
            };
            let signatures = before.update(at, Some(vote.signature));
            let (after, certificate) = collectors::collected(collector, signer, vote);
            &&& before[at] is Some ==> after == collector && certificate is None
            &&& before[at] is None ==> {
                if 3 * certificate_laws::signers_power(signatures, collector.validators, 0) > 2
                    * certificate_laws::everyones_power(collector.validators, 0) {
                    certificate == Some(signatures)
                } else {
                    &&& certificate is None
                    &&& after.tallies.contains_key(key)
                    &&& after.tallies[key].0 == signatures
                }
            }
            &&& other != key ==> {
                &&& after.tallies.contains_key(other) == collector.tallies.contains_key(other)
                &&& after.tallies.contains_key(other) ==> after.tallies[other]
                    == collector.tallies[other]
            }
        }),
{
    let key = VoteKey { block: vote.block, phase: vote.phase };
    lemma_place_of(collector.validators, signer, at);
    let (signatures, power) = collectors::tally_of(collector, key);
    collectors::lemma_no_signed_power(collector.validators);
    if signatures[at] is None {
        let updated = signatures.update(at, Some(vote.signature));
        collectors::lemma_signed_power_update(
            signatures,
            collector.validators,
            at,
            vote.signature,
        );
        certificate_laws::lemma_power_adds_up(updated, collector.validators);
    }
}

/// A vote for another chain or another view, or by someone who is no validator, is not counted.
pub proof fn law_strange_votes_do_not_count(
    collector: CollectorView,
    signer: VerifyingKey,
    vote: PhaseVote,
)
    requires
        vote.chain_id != collector.chain_id || vote.view != collector.view || (forall|i: int|
            0 <= i < collector.validators.len() ==> (#[trigger] collector.validators[i]).0
                != signer),
    ensures
        collectors::collected(collector, signer, vote) == (
            collector,
            None::<Seq<Option<SignatureBytes>>>,
        ),
{
    if forall|i: int|
        0 <= i < collector.validators.len() ==> (#[trigger] collector.validators[i]).0 != signer {
        lemma_no_place(collector.validators, signer);
    }
}

/// While a change of validators is not decided, a vote is counted towards a certificate by the
/// committed validators and, unless it completes that, towards one by the previous validators.
pub proof fn law_votes_count_for_both_sets(
    pair: CollectorsView,
    signer: VerifyingKey,
    vote: PhaseVote,
)
    ensures
        ({
            let (after, certificate) = collectors::pair_collected(pair, signer, vote);
            let (committed, first) = collectors::collected(pair.committed, signer, vote);
            &&& after.committed == committed
            &&& first is Some ==> certificate == first
            &&& first is None && pair.previous is None ==> certificate is None
            &&& first is None && pair.previous is Some ==> {
                let (previous, second) = collectors::collected(pair.previous->0, signer, vote);
                certificate == second && after.previous == Some(previous)
            }
        }),
{
}

/// A replica that is asked for a no-endorsement sends one to the leader of the view exactly if it is
/// in that view, has sent none in it, and did not vote for the block of the timed-out view's high
/// tip there. The no-endorsement is for the view and the view of the tip's certificate, and carries
/// the replica's signature of both. A second request in the same view is not answered.
pub proof fn law_no_endorsements_are_sent_once<R: Roles>(run: Run, roles: R, request: NERequest)
    requires
        request.tc.high_tip is Some,
    ensures
        ({
            let tip = request.tc.high_tip->0;
            let after = handlers::ne_requested(run, roles, request);
            let leader = roles.leader(
                request.view,
                tree::validators_of(run.tree).committed,
                tree::reputation_of(run.tree).0,
            );
            let answers = request.view == run.hs.view_info.view && !run.hs.ne_sent_views.contains(
                request.view,
            ) && run.tree.last_voted_proposal != Some((request.tc.view, tip.block_hash));
            &&& after.tree == run.tree
            &&& !answers ==> after == run
            &&& answers ==> {
                &&& speaking::said(after.done) == speaking::said(run.done).push(
                    speaking::to_peer(
                        leader,
                        HotStuffMessage::NE(
                            NEMessage {
                                chain_id: run.hs.chain_id,
                                view: request.view,
                                high_tip_qc_view: tip.block_justify.view,
                                signature: run.hs.keypair.signature_of(
                                    codec::ne_message(request.view, tip.block_justify.view),
                                ),
                            },
                        ),
                    ),
                )
                &&& handlers::ne_requested(after, roles, request) == after
            }
        }),
{
    let tip = request.tc.high_tip->0;
    let leader = roles.leader(
        request.view,
        tree::validators_of(run.tree).committed,
        tree::reputation_of(run.tree).0,
    );
    let ne = handlers::ne_of(run.hs, request.view, tip.block_justify.view);
    let deed = speaking::to_peer(leader, HotStuffMessage::NE(ne));
    assert(voting::sent(leader, HotStuffMessage::NE(ne)) =~= seq![deed]);
    speaking::lemma_spoke(run, deed);
    let views = run.hs.ne_sent_views.push(request.view);
    assert(views[run.hs.ne_sent_views.len() as int] == request.view);
}

/// A replica that is asked for the block of a timed-out view's high tip, in the view that it is in,
/// sends the block to who asks if the tree holds it, with the timeout certificate; otherwise it does
/// nothing.
pub proof fn law_blocks_of_timed_out_views_are_handed_out(
    run: Run,
    request: ProposalRequest,
    origin: VerifyingKey,
)
    ensures
        ({
            let after = handlers::proposal_requested(run, request, origin);
            if request.view == run.hs.view_info.view && request.tc.high_tip is Some
                && run.tree.blocks.contains_key((request.tc.high_tip->0).block_hash) {
                &&& after.tree == run.tree
                &&& after.hs == run.hs
                &&& speaking::said(after.done) == speaking::said(run.done).push(
                    speaking::to_peer(
                        origin,
                        HotStuffMessage::ProposalResponse(
                            ProposalResponse {
                                chain_id: request.chain_id,
                                view: request.view,
                                proposal: Proposal {
                                    chain_id: request.chain_id,
                                    view: request.view,
                                    block: run.tree.blocks[(request.tc.high_tip->0).block_hash],
                                    tc: Some(request.tc),
                                    nec: None,
                                },
                            },
                        ),
                    ),
                )
            } else {
                after == run
            }
        }),
{
    if request.tc.high_tip is Some {
        let proposal = Proposal {
            chain_id: request.chain_id,
            view: request.view,
            block: run.tree.blocks[(request.tc.high_tip->0).block_hash],
            tc: Some(request.tc),
            nec: None,
        };
        let message = HotStuffMessage::ProposalResponse(
            ProposalResponse { chain_id: request.chain_id, view: request.view, proposal },
        );
        assert(voting::sent(origin, message) =~= seq![speaking::to_peer(origin, message)]);
        speaking::lemma_spoke(run, speaking::to_peer(origin, message));
    }
}

/// A leader that looks for the block of a timed-out view proposes it again once it is handed out to
/// it: exactly if it comes for the view that the leader is in, is the block of the high tip, and may
/// be taken. The proposal carries the timeout certificate, and the leader stops looking.
pub proof fn law_recovered_blocks_are_proposed_again(run: Run, response: ProposalResponse)
    ensures
        ({
            let block = response.proposal.block;
            let after = handlers::proposal_recovered(run, response);
            &&& run.hs.recovery is Idle ==> after == run
            &&& run.hs.recovery is Recovering ==> ({
                let tc = run.hs.recovery->tc;
                if tc.high_tip is Some && response.view == run.hs.view_info.view && block.hash == (
                tc.high_tip->0).block_hash && proposal_laws::may_be_taken(run, block) {
                    &&& after.hs.recovery is Idle
                    &&& after.tree == run.tree
                    &&& view_laws::goes_on_with_proposal(
                        speaking::said(run.done),
                        speaking::said(after.done),
                        Proposal {
                            chain_id: run.hs.chain_id,
                            view: run.hs.view_info.view,
                            block,
                            tc: Some(tc),
                            nec: None,
                        },
                        tree::updates_status(run.tree, block.hash)
                            != ValidatorSetUpdatesStatus::NoUpdates,
                        tree::validators_of(run.tree).committed,
                        run.hs.keypair.public_key(),
                        run.hs.push_limit,
                    )
                } else {
                    after == run
                }
            })
        }),
{
    if let RecoveryView::Recovering { tc, collector } = run.hs.recovery {
        let idle = state::now_holding(run, HsView { recovery: RecoveryView::Idle, ..run.hs });
        view_laws::law_proposals_are_announced_by_their_header(
            idle,
            proposing::proposal_for(idle.hs, response.proposal.block, Some(tc), None),
            proposing::changes_validators(idle.tree, response.proposal.block.hash),
        );
    }
}

/// A leader that may pass over the block of a timed-out view plans a block right on top of the
/// certificate that the passed-over block rests on, next to that block, and hands on both the
/// timeout certificate and the no-endorsement certificate.
pub proof fn law_passed_over_blocks_get_a_sibling(
    run: Run,
    tc: TimeoutCertificate,
    nec: NoEndorsementCertificate,
)
    requires
        tc.high_tip is Some,
    ensures
        ({
            let justify = (tc.high_tip->0).block_justify;
            let (after, result) = handlers::passed_over(run, tc, nec);
            &&& after.tree == run.tree
            &&& after.done == run.done
            &&& after.hs.recovery is Idle
            &&& match result {
                Ok(plan) => plan is Some && view_laws::goes_on_top(run.tree, plan->0, justify)
                    && (plan->0).occasion == (Occasion::Recovery { tc, nec }),
                Err(_) => !justify.is_genesis() && (!run.tree.blocks.contains_key(justify.block)
                    || run.tree.blocks[justify.block].height.0 == u64::MAX),
            }
        }),
{
}

/// The no-endorsements that a leader collects complete a certificate exactly if the last one counts
/// and the signers then have more than two thirds of the power of all.
pub proof fn law_a_quorum_of_no_endorsements_is_needed(
    run: Run,
    ne: NEMessage,
    origin: VerifyingKey,
)
    requires
        run.hs.recovery is Recovering,
        (run.hs.recovery->collector).signatures.len() == (
        run.hs.recovery->collector).validators.len(),
    ensures
        ({
            let collector = run.hs.recovery->collector;
            let after = handlers::ne_gathered(run, ne, origin).hs.recovery->collector;
            let counts = {
                &&& ne.view == collector.view
                &&& ne.high_tip_qc_view == collector.high_tip_qc_view
                &&& !collector.voters.contains(origin)
                &&& exists|at: int|
                    #[trigger] is_place_of(collector.validators, origin, at)
                        && collector.signatures[at] is None
                &&& origin.accepts(codec::ne_message(ne.view, ne.high_tip_qc_view), ne.signature)
            };
            &&& !counts ==> after == collector && !handlers::ne_completes(run, ne, origin)
            &&& counts ==> (handlers::ne_completes(run, ne, origin) <==> 3
                * certificate_laws::signers_power(after.signatures, after.validators, 0) > 2
                * certificate_laws::everyones_power(after.validators, 0))
            &&& forall|at: int|
                counts && #[trigger] is_place_of(collector.validators, origin, at)
                    ==> after.signatures == collector.signatures.update(at, Some(ne.signature))
            &&& after.validators == collector.validators
        }),
{
    let collector = run.hs.recovery->collector;
    let after = handlers::ne_gathered(run, ne, origin).hs.recovery->collector;
    if validator_set::has_validator(collector.validators, origin) {
        lemma_has_place(collector.validators, origin);
    }
    assert forall|at: int| #[trigger] is_place_of(collector.validators, origin, at) implies at
        == validator_set::position_of(collector.validators, origin)
        && validator_set::has_validator(collector.validators, origin) by {
        lemma_place_of(collector.validators, origin, at);
    }
    certificate_laws::lemma_power_adds_up(after.signatures, after.validators);
}

/// A validator has a place.
proof fn lemma_has_place(validators: Seq<(VerifyingKey, Power)>, key: VerifyingKey)
    requires
        validator_set::has_validator(validators, key),
    ensures
        is_place_of(validators, key, validator_set::position_of(validators, key)),
    decreases validators.len(),
{
    if validators[0].0 != key {
        let rest = validators.drop_first();
        lemma_has_place(rest, key);
        let at = validator_set::position_of(rest, key);
        assert(rest[at] == validators[at + 1]);
        assert forall|i: int| 0 <= i < at + 1 implies (#[trigger] validators[i]).0 != key by {
            if i > 0 {
                assert(rest[i - 1] == validators[i]);
            }
        }
    }
}

/// A request for a body is answered to who asks, with a block that the replica proposed or holds in
/// its tree under the hash that is asked for; without one it is not answered.
pub proof fn law_bodies_are_served(run: Run, request: BlockDataRequest, origin: VerifyingKey)
    ensures
        ({
            let hash = request.block_hash;
            let after = bodies::body_served(run, request, origin);
            let block = if run.hs.pending_bodies.contains_key(hash) {
                Some(run.hs.pending_bodies[hash])
            } else if run.tree.blocks.contains_key(hash) {
                Some(run.tree.blocks[hash])
            } else {
                None
            };
            &&& after.tree == run.tree
            &&& after.hs == run.hs
            &&& match block {
                Some(block) => speaking::said(after.done) == speaking::said(run.done).push(
                    speaking::to_peer(
                        origin,
                        HotStuffMessage::BlockDataResponse(
                            BlockDataResponse { view: request.view, block },
                        ),
                    ),
                ),
                None => after.done == run.done,
            }
        }),
{
    let hash = request.block_hash;
    let block = if run.hs.pending_bodies.contains_key(hash) {
        run.hs.pending_bodies[hash]
    } else {
        run.tree.blocks[hash]
    };
    let message = HotStuffMessage::BlockDataResponse(
        BlockDataResponse { view: request.view, block },
    );
    assert(voting::sent(origin, message) =~= seq![speaking::to_peer(origin, message)]);
    speaking::lemma_spoke(run, speaking::to_peer(origin, message));
}

/// The updates that the network hears of are those of the last committed block that brings any.
proof fn lemma_latest_updates(committed: Seq<CommittedBlock>)
    ensures
        forall|at: int| #[trigger]
            effect_laws::last_with_updates(committed, at) ==> updates::latest_updates(committed)
                == committed[at].1,
        (forall|at: int| 0 <= at < committed.len() ==> (#[trigger] committed[at]).1 is None)
            ==> updates::latest_updates(committed) is None,
    decreases committed.len(),
{
    if committed.len() > 0 {
        let fewer = committed.drop_last();
        let n = fewer.len() as int;
        lemma_latest_updates(fewer);
        assert(committed[n] == committed.last());
        assert forall|at: int| #[trigger]
            effect_laws::last_with_updates(committed, at) implies updates::latest_updates(committed)
            == committed[at].1 by {
            if at < n {
                assert(committed[n].1 is None);
                assert(fewer[at] == committed[at]);
                assert forall|later: int| at < later < fewer.len() implies (
                #[trigger] fewer[later]).1 is None by {
                    assert(fewer[later] == committed[later]);
                }
                assert(effect_laws::last_with_updates(fewer, at));
            }
        }
        if forall|at: int| 0 <= at < committed.len() ==> (#[trigger] committed[at]).1 is None {
            assert(committed[n].1 is None);
            assert forall|at: int| 0 <= at < fewer.len() implies (#[trigger] fewer[at]).1
                is None by {
                assert(fewer[at] == committed[at]);
            }
        }
    }
}

/// Where acting on a certificate commits blocks, a pass of the feed follows right after what the tree
/// does, and then the network hears of the updates to the validators of the last committed block that
/// brings any. Where nothing is committed, neither hears anything.
pub proof fn law_commits_are_made_known<R: Roles>(run: Run, roles: R, justify: PhaseCertificate)
    requires
        updates::update_outcome(run.tree, justify, roles, run.retention) is Ok,
    ensures
        ({
            let (deeds, committed) = updates::update_outcome(
                run.tree,
                justify,
                roles,
                run.retention,
            )->Ok_0;
            let after = acting::acted(run, roles, justify).0;
            let feed = committed_feed::feed_deeds(tree::replay(run.tree, deeds));
            &&& committed.len() == 0 ==> after.done == run.done + deeds
            &&& committed.len() > 0 ==> (run.done + deeds + feed).is_prefix_of(after.done)
            &&& forall|at: int| #[trigger]
                effect_laws::last_with_updates(committed, at) ==> after.done == (run.done + deeds
                    + feed).push(
                    Deed::Other(Effect::UpdateValidatorSet(committed[at].1->0)),
                )
            &&& committed.len() > 0 && (forall|at: int|
                0 <= at < committed.len() ==> (#[trigger] committed[at]).1 is None) ==> after.done
                == run.done + deeds + feed
        }),
{
    let (deeds, committed) = updates::update_outcome(
        run.tree,
        justify,
        roles,
        run.retention,
    )->Ok_0;
    lemma_latest_updates(committed);
    let feed = committed_feed::feed_deeds(tree::replay(run.tree, deeds));
    let all = run.done + deeds + feed;
    let after = acting::acted(run, roles, justify).0;
    assert forall|at: int| #[trigger]
        effect_laws::last_with_updates(committed, at) implies after.done == all.push(
        Deed::Other(Effect::UpdateValidatorSet(committed[at].1->0)),
    ) by {
        let deed = Deed::Other(Effect::UpdateValidatorSet(committed[at].1->0));
        assert(all + seq![deed] =~= all.push(deed));
    }
    if committed.len() > 0 {
        assert(all =~= after.done.subrange(0, all.len() as int));
    }
}

/// A replica does the same about a certificate whether a message or the sync client brings it.
pub proof fn law_certificates_are_acted_on_alike<R: Roles>(
    run: Run,
    roles: R,
    justify: PhaseCertificate,
)
    ensures
        acting::acted(run, roles, justify).0.done == run.done + acting::act_deeds(
            run.tree,
            roles,
            justify,
            run.retention,
        ),
        acting::acted(run, roles, justify).0.tree == tree::replay(
            run.tree,
            acting::act_deeds(run.tree, roles, justify, run.retention),
        ),
{
    let all = acting::act_deeds(run.tree, roles, justify, run.retention);
    let after = acting::acted(run, roles, justify).0;
    match updates::update_outcome(run.tree, justify, roles, run.retention) {
        Ok((deeds, committed)) => {
            let middle = tree::replay(run.tree, deeds);
            let news = acting::news_deeds(middle, committed);
            tree::lemma_replay_concat(run.tree, deeds, news);
            let feed = if committed.len() > 0 {
                committed_feed::feed_deeds(middle)
            } else {
                Seq::empty()
            };
            assert(tree::replay(middle, Seq::<Deed>::empty()) == middle);
            match updates::latest_updates(committed) {
                Some(updates) => {
                    let last = seq![Deed::Other(Effect::UpdateValidatorSet(updates))];
                    tree::lemma_replay_concat(middle, feed, last);
                    assert(news =~= feed + last);
                },
                None => {
                    assert(news =~= feed);
                },
            }
            assert(after.done =~= run.done + all);
        },
        Err(_) => {
            assert(all =~= Seq::<Deed>::empty());
            assert(run.done + all =~= run.done);
        },
    }
}

} // verus!

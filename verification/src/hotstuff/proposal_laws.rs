//! What a replica does about proposals and headers: which it votes for, and what it does about a
//! leader that proposes two blocks in one view.

use vstd::prelude::*;

use crate::app::ValidateBlockResponse;
use crate::block_tree::invariants;
use crate::block_tree::laws;
use crate::block_tree::sparing;
use crate::block_tree::sparing::Kind;
use crate::block_tree::speculation;
use crate::block_tree::store;
use crate::block_tree::tree;
use crate::block_tree::updates;
use crate::block_tree::variables;
use crate::block_tree::write_batch::{Change, WriteOp};
use crate::effects::{Deed, Effect};
use crate::events::Event;
use crate::hotstuff::acting;
use crate::hotstuff::bodies;
use crate::hotstuff::certificates;
use crate::hotstuff::handlers;
use crate::hotstuff::headers;
use crate::hotstuff::messages::{
    BlockDataRequest, HotStuffMessage, PhaseVote, Proposal, ProposalHeader,
};
use crate::hotstuff::order_laws;
use crate::hotstuff::speaking;
use crate::hotstuff::state;
use crate::hotstuff::state::{HsView, Run, SeenProposal};
use crate::hotstuff::types::{EquivocationEvidence, Phase, PhaseCertificate};
use crate::hotstuff::voting;
use crate::pacemaker::TipInfo;
use crate::roles::Roles;
use crate::types::block;
use crate::types::block::Block;
use crate::types::data_types;
use crate::types::data_types::{CryptoHash, VerifyingKey, ViewNumber};
use crate::types::update_sets::AppStateUpdates;
use crate::types::validator_set::ValidatorSetUpdates;

verus! {

/// Whether a vote is the participant's own first vote for a block in the view that it is in: in the
/// prepare phase if the block changes the validators, and in the generic phase otherwise.
pub open spec fn is_first_vote(
    run: Run,
    vote: PhaseVote,
    block: CryptoHash,
    changes_validators: bool,
) -> bool {
    &&& changes_validators ==> speaking::is_own_vote(run, vote, block, Phase::Prepare)
    &&& !changes_validators ==> speaking::is_own_vote(run, vote, block, Phase::Generic)
}

/// What a vote for a block says and leaves.
pub(crate) proof fn lemma_voted<R: Roles>(
    run: Run,
    roles: R,
    block: CryptoHash,
    phase: Phase,
    tip: Option<TipInfo>,
)
    ensures
        ({
            let after = voting::voted(run, roles, block, phase, tip);
            let vote = voting::vote_of(run.hs, block, phase);
            let to = roles.vote_recipient(
                vote,
                tree::validators_of(run.tree),
                tree::reputation_of(run.tree).0,
            );
            &&& after.hs == run.hs
            &&& speaking::said(after.done) == speaking::said(run.done).push(
                speaking::to_peer(to, HotStuffMessage::PhaseVote(vote)),
            )
            &&& speaking::is_own_vote(run, vote, block, phase)
            &&& after.tree.highest_view_phase_voted == Some(run.hs.view_info.view)
            &&& after.tree.last_voted_proposal == Some((run.hs.view_info.view, block))
            &&& after.tree.local_tip == (if tip is Some {
                tip
            } else {
                run.tree.local_tip
            })
            &&& after.tree.blocks == run.tree.blocks
            &&& after.tree.highest_pc == run.tree.highest_pc
            &&& after.tree.locked_pc == run.tree.locked_pc
            &&& tree::validators_of(after.tree) == tree::validators_of(run.tree)
            &&& tree::reputation_of(after.tree) == tree::reputation_of(run.tree)
        }),
{
    let vote = voting::vote_of(run.hs, block, phase);
    let view = run.hs.view_info.view;
    let first = Change::Plain(WriteOp::SetHighestViewPhaseVoted(view));
    let second = Change::Plain(WriteOp::SetLastVotedProposal(view, block));
    let none = Seq::<Change>::empty();
    speaking::lemma_persisted(run, seq![first, second]);
    store::lemma_apply_push(run.tree, none, first);
    store::lemma_apply_push(run.tree, none.push(first), second);
    assert(none.push(first).push(second) =~= seq![first, second]);
    let recorded = state::did(run, variables::vote_recorded(view, block));
    let tipped = match tip {
        Some(tip) => state::did(recorded, variables::written(WriteOp::SetLocalTip(tip))),
        None => recorded,
    };
    if let Some(tip) = tip {
        speaking::lemma_wrote(recorded, WriteOp::SetLocalTip(tip));
    }
    let to = voting::counter_of(run, roles, vote);
    let deed = speaking::to_peer(to, HotStuffMessage::PhaseVote(vote));
    assert(voting::sent(to, HotStuffMessage::PhaseVote(vote)) =~= seq![deed]);
    speaking::lemma_spoke(tipped, deed);
    speaking::lemma_told(state::did(tipped, seq![deed]), Event::PhaseVote { vote });
}

/// What inserting a block says and leaves.
proof fn lemma_inserted(
    run: Run,
    block: Block,
    app_state_updates: Option<AppStateUpdates>,
    validator_set_updates: Option<ValidatorSetUpdates>,
)
    requires
        tree::initialized(run.tree),
    ensures
        ({
            let after = acting::inserted(run, block, app_state_updates, validator_set_updates);
            let changes = updates::insertion(
                run.tree,
                block,
                app_state_updates,
                validator_set_updates,
            );
            &&& after.hs == run.hs
            &&& after.retention == run.retention
            &&& speaking::said(after.done) == speaking::said(run.done)
            &&& after.tree == store::apply_changes(run.tree, changes)
            &&& tree::initialized(after.tree)
            &&& after.tree.highest_view_phase_voted == run.tree.highest_view_phase_voted
            &&& after.tree.highest_pc == run.tree.highest_pc
            &&& after.tree.locked_pc == run.tree.locked_pc
            &&& after.done.len() == run.done.len() + 2
            &&& after.done[run.done.len() as int] == Deed::Persist(changes)
        }),
{
    let changes = updates::insertion(run.tree, block, app_state_updates, validator_set_updates);
    speaking::lemma_persisted(run, changes);
    let stored = state::did(run, seq![Deed::Persist(changes)]);
    speaking::lemma_told(stored, Event::InsertBlock { block });
    assert(sparing::spares(Kind::Votes, changes) && sparing::spares(Kind::Certificates, changes))
        by {
        reveal(sparing::spares);
    }
    sparing::lemma_spares(Kind::Votes, run.tree, changes);
    sparing::lemma_spares(Kind::Certificates, run.tree, changes);
    tree::lemma_changes_keep_initialized(run.tree, changes);
}

/// A replica that has a vote, and has not used it in its view, votes for a proposed block that the
/// application finds valid: it says exactly one thing, its vote for the block in the view that it is
/// in, in the prepare phase if the block changes the validators and in the generic phase otherwise,
/// and remembers that it did. A replica that has no vote, or has used it, says nothing. Before that
/// the block is written to the tree, and its certificate acted on: unless that fails, the highest
/// certificate is at least as new as that of the block, and so is the lock. The leader is not listened
/// to again in the view.
pub proof fn law_valid_proposals_are_voted_for<R: Roles>(
    run: Run,
    roles: R,
    proposal: Proposal,
    origin: VerifyingKey,
    app_state_updates: Option<AppStateUpdates>,
    validator_set_updates: Option<ValidatorSetUpdates>,
)
    requires
        tree::initialized(run.tree),
    ensures
        ({
            let block = proposal.block;
            let justify = block.justify;
            let view = run.hs.view_info.view;
            let after = handlers::proposal_settled(
                run,
                roles,
                proposal,
                origin,
                ValidateBlockResponse::Valid { app_state_updates, validator_set_updates },
            );
            let validators = tree::validators_of(after.tree);
            let records = tree::reputation_of(after.tree).0;
            let changes = updates::insertion(
                run.tree,
                block,
                app_state_updates,
                validator_set_updates,
            );
            let inserted = store::apply_changes(run.tree, changes);
            &&& after.done.len() > run.done.len()
            &&& after.done[run.done.len() as int] == Deed::Persist(changes)
            &&& !state::still_accepts(after.hs.status, origin)
            &&& updates::update_outcome(inserted, justify, roles, run.retention) is Ok ==> {
                &&& (after.tree.highest_pc->0).view.0 >= justify.view.0
                &&& justify.phase != Phase::Prepare ==> (after.tree.locked_pc->0).view.0
                    >= justify.view.0
            }
            &&& if roles.votes(run.hs.keypair.public_key(), validators, justify)
                && speaking::vote_is_unused(run) {
                &&& after.tree.highest_view_phase_voted == Some(view)
                &&& after.tree.last_voted_proposal == Some((view, block.hash))
                &&& exists|vote: PhaseVote|
                    {
                        &&& speaking::said(after.done) == speaking::said(run.done).push(
                            speaking::to_peer(
                                roles.vote_recipient(vote, validators, records),
                                HotStuffMessage::PhaseVote(vote),
                            ),
                        )
                        &&& #[trigger] is_first_vote(
                            run,
                            vote,
                            block.hash,
                            validator_set_updates is Some,
                        )
                    }
                &&& validator_set_updates is None && (proposal.tc is None || !(
                proposal.tc->0).high_tip_is_winner) ==> after.tree.local_tip == Some(
                    TipInfo {
                        block_hash: block.hash,
                        block_height: block.height,
                        block_justify: block.justify,
                        block_data_hash: block.data_hash,
                        view,
                    },
                )
            } else {
                &&& speaking::said(after.done) == speaking::said(run.done)
                &&& after.tree.highest_view_phase_voted == run.tree.highest_view_phase_voted
            }
        }),
{
    let block = proposal.block;
    lemma_inserted(run, block, app_state_updates, validator_set_updates);
    let inserted = acting::inserted(run, block, app_state_updates, validator_set_updates);
    speaking::lemma_acted(inserted, roles, block.justify);
    let taken = acting::taken_in(run, roles, block, app_state_updates, validator_set_updates).0;
    assert(taken.done[run.done.len() as int] == inserted.done[run.done.len() as int]);
    let phase = if validator_set_updates is Some {
        Phase::Prepare
    } else {
        Phase::Generic
    };
    let tip = handlers::tip_after(taken.hs, proposal, phase);
    lemma_voted(taken, roles, block.hash, phase, tip);
    let vote = voting::vote_of(taken.hs, block.hash, phase);
    assert(is_first_vote(run, vote, block.hash, validator_set_updates is Some));
    let voted = voting::voted(taken, roles, block.hash, phase, tip);
    assert(voted.done[run.done.len() as int] == taken.done[run.done.len() as int]);
}

/// A proposed block that the application does not find valid is neither written nor voted for.
pub proof fn law_other_proposals_are_not_voted_for<R: Roles>(
    run: Run,
    roles: R,
    proposal: Proposal,
    origin: VerifyingKey,
    response: ValidateBlockResponse,
)
    requires
        !(response is Valid),
    ensures
        handlers::proposal_settled(run, roles, proposal, origin, response).tree == run.tree,
        handlers::proposal_settled(run, roles, proposal, origin, response).done == run.done,
{
}

/// Whether a block has the hash of its own fields and a certificate that is correct, safe, and of a
/// phase that a block may rest on.
pub open spec fn may_be_taken(run: Run, block: Block) -> bool {
    &&& block.hash_matches()
    &&& certificates::pc_correct(run.tree, block.justify)
    &&& invariants::pc_safe(run.tree, block.justify, run.hs.chain_id)
    &&& block.justify.phase == Phase::Generic || block.justify.phase == Phase::Decide
}

/// Whether a leader was seen to propose a block other than `hash` in a view, before any that it was
/// seen to propose as `hash`.
pub open spec fn saw_another(
    seen: Seq<SeenProposal>,
    view: ViewNumber,
    leader: VerifyingKey,
    hash: CryptoHash,
    at: int,
) -> bool {
    &&& 0 <= at < seen.len()
    &&& seen[at].view == view && seen[at].leader == leader && seen[at].hash != hash
    &&& forall|i: int|
        0 <= i < at ==> !((#[trigger] seen[i]).view == view && seen[i].leader == leader)
}

/// The block that a leader was first seen to propose in a view is the one that is recalled.
proof fn lemma_recalled(
    seen: Seq<SeenProposal>,
    view: ViewNumber,
    leader: VerifyingKey,
    at: int,
)
    requires
        0 <= at < seen.len(),
        seen[at].view == view,
        seen[at].leader == leader,
        forall|i: int|
            0 <= i < at ==> !((#[trigger] seen[i]).view == view && seen[i].leader == leader),
    ensures
        state::recalled(seen, view, leader) == Some(seen[at].hash),
    decreases seen.len(),
{
    let fewer = seen.drop_last();
    if at < fewer.len() {
        assert forall|i: int| 0 <= i < at implies !((#[trigger] fewer[i]).view == view
            && fewer[i].leader == leader) by {
            assert(fewer[i] == seen[i]);
        }
        assert(fewer[at] == seen[at]);
        lemma_recalled(fewer, view, leader, at);
    } else {
        assert forall|i: int| 0 <= i < fewer.len() implies !((#[trigger] fewer[i]).view == view
            && fewer[i].leader == leader) by {
            assert(fewer[i] == seen[i]);
        }
        lemma_nothing_recalled(fewer, view, leader);
    }
}

proof fn lemma_nothing_recalled(seen: Seq<SeenProposal>, view: ViewNumber, leader: VerifyingKey)
    requires
        forall|i: int|
            0 <= i < seen.len() ==> !((#[trigger] seen[i]).view == view && seen[i].leader
                == leader),
    ensures
        state::recalled(seen, view, leader) is None,
    decreases seen.len(),
{
    if seen.len() > 0 {
        let fewer = seen.drop_last();
        assert forall|i: int| 0 <= i < fewer.len() implies !((#[trigger] fewer[i]).view == view
            && fewer[i].leader == leader) by {
            assert(fewer[i] == seen[i]);
        }
        lemma_nothing_recalled(fewer, view, leader);
        assert(seen.last() == seen[seen.len() - 1]);
    }
}

/// Whether a proposal of a block again rests on a correct timeout of the view right before that the
/// participant is in, with that block as the high tip.
pub open spec fn rests_on_timeout<R: Roles>(run: Run, roles: R, proposal: Proposal) -> bool {
    &&& proposal.tc is Some
    &&& roles.accepts_timeout(proposal.tc->0, tree::validators_of(run.tree))
    &&& (proposal.tc->0).view.0 + 1 == run.hs.view_info.view.0
    &&& (proposal.tc->0).high_tip is Some
    &&& ((proposal.tc->0).high_tip->0).block_hash == proposal.block.hash
}

/// A proposal is put before the application only if its leader was not seen to propose another block
/// in the view, its block may be taken, and what it rests on is in order: a no-endorsement certificate
/// has to be valid, and without one a block that is proposed again has to rest on the timeout. The
/// proposal is then remembered. A first proposal of which all this holds is put before the
/// application. Looking at a proposal says nothing, and changes nothing in the tree unless the leader
/// is caught with a second block. A proposal on top of a block that the tree lacks calls for a sync.
pub proof fn law_only_safe_proposals_are_considered<R: Roles>(
    run: Run,
    roles: R,
    proposal: Proposal,
    origin: VerifyingKey,
)
    ensures
        ({
            let (after, goes_on) = handlers::proposal_screened(run, roles, proposal, origin);
            &&& goes_on ==> {
                &&& may_be_taken(run, proposal.block)
                &&& forall|at: int| !#[trigger]
                    saw_another(run.hs.seen, proposal.view, origin, proposal.block.hash, at)
                &&& exists|at: int|
                    0 <= at < after.hs.seen.len() && (#[trigger] after.hs.seen[at]).view
                        == proposal.view && after.hs.seen[at].leader == origin
                        && after.hs.seen[at].hash == proposal.block.hash
                &&& proposal.nec matches Some(nec) ==> certificates::nec_valid(run.tree, nec)
                &&& proposal.nec is None && proposal.tc is Some && (
                proposal.tc->0).high_tip_is_winner ==> rests_on_timeout(run, roles, proposal)
                &&& after.tree == run.tree
                &&& speaking::said(after.done) == speaking::said(run.done)
            }
            &&& may_be_taken(run, proposal.block) && (match proposal.nec {
                Some(nec) => certificates::nec_valid(run.tree, nec),
                None => proposal.tc is None || !(proposal.tc->0).high_tip_is_winner
                    || rests_on_timeout(run, roles, proposal),
            }) && (forall|at: int|
                0 <= at < run.hs.seen.len() ==> !((#[trigger] run.hs.seen[at]).view
                    == proposal.view && run.hs.seen[at].leader == origin)) ==> goes_on
            &&& !goes_on && (forall|at: int|
                0 <= at < run.hs.seen.len() ==> !((#[trigger] run.hs.seen[at]).view
                    == proposal.view && run.hs.seen[at].leader == origin)) ==> {
                &&& after.tree == run.tree
                &&& speaking::said(after.done) == speaking::said(run.done)
                &&& proposal.nec is None && proposal.tc is None && !run.tree.blocks.contains_key(
                    proposal.block.justify.block,
                ) ==> after.hs.sync_needed
            }
        }),
{
    speaking::lemma_told(run, Event::ReceiveProposal { origin, proposal });
    let view = proposal.view;
    let hash = proposal.block.hash;
    assert forall|at: int|
        handlers::proposal_screened(run, roles, proposal, origin).1 implies !#[trigger] saw_another(
        run.hs.seen,
        view,
        origin,
        hash,
        at,
    ) by {
        if saw_another(run.hs.seen, view, origin, hash, at) {
            lemma_recalled(run.hs.seen, view, origin, at);
        }
    }
    if forall|at: int|
        0 <= at < run.hs.seen.len() ==> !((#[trigger] run.hs.seen[at]).view == view
            && run.hs.seen[at].leader == origin) {
        lemma_nothing_recalled(run.hs.seen, view, origin);
    }
    let (after, goes_on) = handlers::proposal_screened(run, roles, proposal, origin);
    if goes_on {
        if state::recalled(run.hs.seen, view, origin) is Some {
            lemma_was_seen(run.hs.seen, view, origin);
        } else {
            let n = run.hs.seen.len() as int;
            assert(after.hs.seen[n].hash == hash);
        }
    }
}

/// What is recalled was seen.
proof fn lemma_was_seen(seen: Seq<SeenProposal>, view: ViewNumber, leader: VerifyingKey)
    requires
        state::recalled(seen, view, leader) is Some,
    ensures
        exists|at: int|
            0 <= at < seen.len() && (#[trigger] seen[at]).view == view && seen[at].leader == leader
                && seen[at].hash == state::recalled(seen, view, leader)->0,
    decreases seen.len(),
{
    let fewer = seen.drop_last();
    if state::recalled(fewer, view, leader) is Some {
        lemma_was_seen(fewer, view, leader);
        let at = choose|at: int|
            0 <= at < fewer.len() && (#[trigger] fewer[at]).view == view && fewer[at].leader
                == leader && fewer[at].hash == state::recalled(fewer, view, leader)->0;
        assert(seen[at] == fewer[at]);
    } else {
        assert(seen[seen.len() - 1] == seen.last());
    }
}

/// What rolling back a speculative commit leaves.
pub(crate) proof fn lemma_rolled_back(run: Run, block: CryptoHash, evidence: EquivocationEvidence)
    ensures
        ({
            let after = headers::rolled_back(run, block, evidence);
            &&& !after.tree.speculative_commits.contains(block)
            &&& forall|other: CryptoHash| #[trigger]
                after.tree.speculative_commits.contains(other)
                    ==> run.tree.speculative_commits.contains(other)
            &&& after.tree.evidence == run.tree.evidence
            &&& after.tree.highest_view_phase_voted == run.tree.highest_view_phase_voted
            &&& after.tree.blocks == run.tree.blocks
            &&& after.hs == run.hs
            &&& speaking::said(after.done) == speaking::said(run.done)
        }),
{
    if run.tree.speculative_commits.contains(block) {
        let shorter = data_types::without(run.tree.speculative_commits, block);
        let change = Change::SpeculativeCommits(shorter);
        speaking::lemma_persisted(run, seq![change]);
        let none = Seq::<Change>::empty();
        store::lemma_apply_push(run.tree, none, change);
        assert(none.push(change) =~= seq![change]);
        let undone = state::did(run, speculation::unspeculate(run.tree, block));
        let event = Event::RollbackBlock {
            block,
            view: evidence.view,
            equivocator: evidence.leader,
        };
        speaking::lemma_told(undone, event);
        let told = state::told(undone, event);
        let last = Deed::Other(Effect::SpeculativeRollback(block, evidence));
        tree::lemma_replay_one(told.tree, last);
        speaking::lemma_said_one(last);
        speaking::lemma_said_concat(told.done, seq![last]);
        assert(speaking::said(told.done) + Seq::<Deed>::empty() =~= speaking::said(told.done));
        let commits = run.tree.speculative_commits;
        assert forall|other: CryptoHash| #[trigger] shorter.contains(other) implies commits.contains(
            other,
        ) && other != block by {
            lemma_without(commits, block, other);
        }
    }
}

/// Leaving out a hash leaves the others.
proof fn lemma_without(hashes: Seq<CryptoHash>, hash: CryptoHash, other: CryptoHash)
    requires
        data_types::without(hashes, hash).contains(other),
    ensures
        hashes.contains(other),
        other != hash,
    decreases hashes.len(),
{
    reveal(Seq::filter);
    let shorter = data_types::without(hashes, hash);
    if hashes.len() > 0 {
        let fewer = hashes.drop_last();
        let kept = data_types::without(fewer, hash);
        let at = choose|at: int| 0 <= at < shorter.len() && shorter[at] == other;
        if at < kept.len() {
            assert(kept[at] == other);
            lemma_without(fewer, hash, other);
            let i = choose|i: int| 0 <= i < fewer.len() && fewer[i] == other;
            assert(hashes[i] == other);
        } else {
            assert(hashes[hashes.len() - 1] == other);
        }
    }
}

/// What catching a leader leaves.
pub(crate) proof fn lemma_caught(run: Run, evidence: EquivocationEvidence)
    ensures
        ({
            let after = headers::caught(run, evidence);
            &&& after.tree.evidence.contains(
                (evidence.view, evidence.leader.bytes, evidence.block_a, evidence.block_b),
            )
            &&& !after.tree.speculative_commits.contains(evidence.block_a)
            &&& forall|other: CryptoHash| #[trigger]
                after.tree.speculative_commits.contains(other)
                    ==> run.tree.speculative_commits.contains(other)
            &&& after.tree.highest_view_phase_voted == run.tree.highest_view_phase_voted
            &&& after.tree.blocks == run.tree.blocks
            &&& after.hs == run.hs
            &&& speaking::said(after.done) == speaking::said(run.done)
        }),
{
    let event = Event::EquivocationDetected { evidence };
    speaking::lemma_told(run, event);
    let detected = state::told(run, event);
    let deeds = speculation::record_evidence(detected.tree, evidence);
    let recorded = state::did(detected, deeds);
    laws::law_evidence_is_kept_once(detected.tree, evidence, evidence.block_a);
    if detected.tree.evidence.contains(speculation::evidence_entry(evidence)) {
        assert(recorded.done =~= detected.done);
        tree::lemma_replay_one(detected.tree, Deed::Other(Effect::Publish(event)));
    } else {
        let change = Change::Evidence(
            detected.tree.evidence.push(speculation::evidence_entry(evidence)),
        );
        speaking::lemma_persisted(detected, seq![change]);
        let none = Seq::<Change>::empty();
        store::lemma_apply_push(detected.tree, none, change);
        assert(none.push(change) =~= seq![change]);
    }
    lemma_rolled_back(recorded, evidence.block_a, evidence);
}

/// A leader that is seen to propose a second block in a view, by a proposal or by a header, is
/// caught: the tree keeps evidence with the view, the leader and both blocks; the first block is no
/// longer speculatively committed; neither is the second where it came as a proposal. The second
/// block is neither written nor voted for, and nothing is said.
pub proof fn law_second_proposals_are_caught<R: Roles>(
    run: Run,
    roles: R,
    proposal: Proposal,
    header: ProposalHeader,
    origin: VerifyingKey,
    now: u64,
    at: int,
)
    requires
        run.hs.inline_header != Some(header.block_hash) || origin != run.hs.keypair.public_key(),
    ensures
        saw_another(run.hs.seen, proposal.view, origin, proposal.block.hash, at) ==> ({
            let (after, goes_on) = handlers::proposal_screened(run, roles, proposal, origin);
            let first = run.hs.seen[at].hash;
            &&& !goes_on
            &&& after.tree.evidence.contains(
                (proposal.view, origin.bytes, first, proposal.block.hash),
            )
            &&& !after.tree.speculative_commits.contains(first)
            &&& !after.tree.speculative_commits.contains(proposal.block.hash)
            &&& after.tree.highest_view_phase_voted == run.tree.highest_view_phase_voted
            &&& after.tree.blocks == run.tree.blocks
            &&& speaking::said(after.done) == speaking::said(run.done)
        }),
        saw_another(run.hs.seen, header.view, origin, header.block_hash, at) ==> ({
            let (after, claimed) = headers::header_handled(run, roles, header, origin, now);
            let first = run.hs.seen[at].hash;
            &&& claimed is None
            &&& after.tree.evidence.contains((header.view, origin.bytes, first, header.block_hash))
            &&& !after.tree.speculative_commits.contains(first)
            &&& after.tree.highest_view_phase_voted == run.tree.highest_view_phase_voted
            &&& after.tree.blocks == run.tree.blocks
            &&& speaking::said(after.done) == speaking::said(run.done)
        }),
{
    if saw_another(run.hs.seen, proposal.view, origin, proposal.block.hash, at) {
        let hash = proposal.block.hash;
        let event = Event::ReceiveProposal { origin, proposal };
        speaking::lemma_told(run, event);
        let received = state::told(run, event);
        lemma_recalled(run.hs.seen, proposal.view, origin, at);
        let evidence = headers::evidence_against(received.hs, proposal.view, origin, hash);
        lemma_caught(received, evidence);
        lemma_rolled_back(headers::caught(received, evidence), hash, evidence);
    }
    if saw_another(run.hs.seen, header.view, origin, header.block_hash, at) {
        let hash = header.block_hash;
        lemma_recalled(run.hs.seen, header.view, origin, at);
        let evidence = headers::evidence_against(run.hs, header.view, origin, hash);
        lemma_caught(run, evidence);
    }
}

/// What moving the lock on ahead of a body says and leaves.
pub(crate) proof fn lemma_locked_ahead<R: Roles>(run: Run, roles: R, justify: PhaseCertificate)
    requires
        tree::initialized(run.tree),
    ensures
        ({
            let deeds = updates::locks_only_deeds(run.tree, justify, roles);
            let after = state::did(run, deeds);
            &&& after.hs == run.hs
            &&& speaking::said(after.done) == speaking::said(run.done)
            &&& after.tree.highest_view_phase_voted == run.tree.highest_view_phase_voted
            &&& tree::initialized(after.tree)
            &&& (after.tree.highest_pc->0).view.0 >= justify.view.0
            &&& justify.phase != Phase::Prepare ==> (after.tree.locked_pc->0).view.0
                >= justify.view.0
        }),
{
    let deeds = updates::locks_only_deeds(run.tree, justify, roles);
    order_laws::lemma_locking_is_inner(run.tree, justify, roles);
    speaking::lemma_inner_is_silent(deeds);
    speaking::lemma_said_concat(run.done, deeds);
    assert(speaking::said(run.done) + Seq::<Deed>::empty() =~= speaking::said(run.done));
    laws::law_locking_ahead_is_not_repeated(run.tree, justify, roles);
    tree::lemma_replay_keeps_initialized(run.tree, deeds);
    let kind = Kind::Votes;
    let locks = updates::lock_changes(run.tree, justify);
    let decision = updates::decision(justify);
    sparing::lemma_locking(kind, run.tree, justify);
    sparing::lemma_spares_concat(kind, locks, decision);
    let written = seq![Deed::Persist(locks + decision)];
    assert(sparing::deeds_spare(kind, written)) by {
        reveal(sparing::deeds_spare);
    }
    let base = tree::replay(run.tree, written);
    let news = updates::is_news(run.tree, justify);
    let credited = updates::credit_news(base, roles, news, justify);
    sparing::lemma_credit(kind, base, roles, justify.view);
    assert(sparing::deeds_spare(kind, credited)) by {
        reveal(sparing::deeds_spare);
    }
    let highest = updates::new_highest(run.tree, justify);
    let locked = invariants::new_lock(run.tree, justify);
    let events = updates::update_events(highest, locked, Seq::empty());
    sparing::lemma_events(kind, highest, locked, Seq::empty());
    sparing::lemma_deeds_concat(kind, written, credited);
    sparing::lemma_deeds_concat(kind, written + credited, events);
    sparing::lemma_deeds_spare(kind, run.tree, deeds);
}

/// A replica that has a vote, and has not used it in its view, votes on a safe header: it sends
/// exactly one vote, for the block that the header names in the view that the replica is in, in the
/// prepare phase if the header says that the block changes the validators and in the generic phase
/// otherwise. By then its highest certificate is at least as new as that of the header, and so is its
/// lock. Then, if it has not got the body, it asks the sender of the header for it, and awaits it. It
/// says nothing else.
pub proof fn law_safe_headers_are_voted_for<R: Roles>(
    run: Run,
    roles: R,
    header: ProposalHeader,
    origin: VerifyingKey,
    now: u64,
)
    requires
        tree::initialized(run.tree),
        run.hs.inline_header != Some(header.block_hash) || origin != run.hs.keypair.public_key(),
        !headers::equivocates(run.hs, header.view, origin, header.block_hash),
        header.block_hash == block::block_hash(header.height, header.justify, header.data_hash),
        headers::header_safe(run, header.justify),
    ensures
        ({
            let (after, claimed) = headers::header_handled(run, roles, header, origin, now);
            let validators = tree::validators_of(after.tree);
            let records = tree::reputation_of(after.tree).0;
            let view = run.hs.view_info.view;
            let asked = if after.tree.blocks.contains_key(header.block_hash) || claimed is Some {
                Seq::<Deed>::empty()
            } else {
                seq![
                    Deed::Other(
                        Effect::RequestBlockData(
                            origin,
                            BlockDataRequest {
                                chain_id: header.chain_id,
                                view: header.view,
                                block_hash: header.block_hash,
                            },
                        ),
                    ),
                ]
            };
            &&& (after.tree.highest_pc->0).view.0 >= header.justify.view.0
            &&& header.justify.phase != Phase::Prepare ==> (after.tree.locked_pc->0).view.0
                >= header.justify.view.0
            &&& claimed matches Some(block) ==> block.hash == header.block_hash
            &&& !after.tree.blocks.contains_key(header.block_hash)
                ==> after.hs.pending_headers.contains_key(header.block_hash)
                && after.hs.pending_headers[header.block_hash] == header
            &&& if roles.votes(run.hs.keypair.public_key(), validators, header.justify)
                && speaking::vote_is_unused(run) {
                &&& after.tree.highest_view_phase_voted == Some(view)
                &&& after.tree.last_voted_proposal == Some((view, header.block_hash))
                &&& exists|vote: PhaseVote|
                    {
                        &&& speaking::said(after.done) == speaking::said(run.done).push(
                            speaking::to_peer(
                                roles.vote_recipient(vote, validators, records),
                                HotStuffMessage::PhaseVote(vote),
                            ),
                        ) + asked
                        &&& #[trigger] is_first_vote(
                            run,
                            vote,
                            header.block_hash,
                            header.has_validator_set_updates,
                        )
                    }
            } else {
                &&& speaking::said(after.done) == speaking::said(run.done) + asked
                &&& after.tree.highest_view_phase_voted == run.tree.highest_view_phase_voted
            }
        }),
{
    let hash = header.block_hash;
    let seen = headers::noted(run, header.view, origin, hash);
    lemma_locked_ahead(seen, roles, header.justify);
    let locked = acting::refreshed(
        state::did(seen, updates::locks_only_deeds(seen.tree, header.justify, roles)),
    );
    let phase = if header.has_validator_set_updates {
        Phase::Prepare
    } else {
        Phase::Generic
    };
    let blind = if locked.tree.blocks.contains_key(hash) || locked.hs.header_voted.contains(hash) {
        locked
    } else {
        state::now_holding(
            locked,
            HsView { header_voted: locked.hs.header_voted.push(hash), ..locked.hs },
        )
    };
    lemma_voted(blind, roles, hash, phase, None);
    let vote = voting::vote_of(blind.hs, hash, phase);
    assert(is_first_vote(run, vote, hash, header.has_validator_set_updates));
    let voted = headers::header_voted_on(seen, roles, header);
    let request = BlockDataRequest {
        chain_id: header.chain_id,
        view: header.view,
        block_hash: hash,
    };
    let deed = Deed::Other(Effect::RequestBlockData(origin, request));
    speaking::lemma_spoke(voted, deed);
    assert(speaking::said(voted.done).push(deed) =~= speaking::said(voted.done) + seq![deed]);
    assert(speaking::said(voted.done) + Seq::<Deed>::empty() =~= speaking::said(voted.done));
    if bodies::block_among(voted.hs.pushed_bodies, hash) is Some {
        lemma_block_among(voted.hs.pushed_bodies, hash);
    }
}

/// The block that is found has the hash that was looked for.
proof fn lemma_block_among(blocks: Seq<Block>, hash: CryptoHash)
    requires
        bodies::block_among(blocks, hash) is Some,
    ensures
        (bodies::block_among(blocks, hash)->0).hash == hash,
        blocks.contains(bodies::block_among(blocks, hash)->0),
    decreases blocks.len(),
{
    let fewer = blocks.drop_last();
    if bodies::block_among(fewer, hash) is Some {
        lemma_block_among(fewer, hash);
        let found = bodies::block_among(fewer, hash)->0;
        let i = choose|i: int| 0 <= i < fewer.len() && fewer[i] == found;
        assert(blocks[i] == found);
    } else {
        assert(blocks[blocks.len() - 1] == blocks.last());
    }
}

/// A leader that handled its own header while it sent it does nothing when the header comes back.
pub proof fn law_own_headers_are_handled_once<R: Roles>(
    run: Run,
    roles: R,
    header: ProposalHeader,
    now: u64,
)
    requires
        run.hs.inline_header == Some(header.block_hash),
    ensures
        headers::header_handled(run, roles, header, run.hs.keypair.public_key(), now) == (
            run,
            None::<Block>,
        ),
{
}

} // verus!

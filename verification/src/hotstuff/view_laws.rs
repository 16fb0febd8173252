//! What a replica does when it leaves a view and enters another.

use vstd::prelude::*;

use crate::app::ProduceBlockResponse;
use crate::block_tree::commit::CommittedBlock;
use crate::block_tree::errors::BlockTreeError;
use crate::block_tree::sparing;
use crate::block_tree::sparing::Kind;
use crate::block_tree::store::TreeView;
use crate::block_tree::tree;
use crate::block_tree::updates;
use crate::block_tree::variables;
use crate::block_tree::write_batch::{Change, WriteOp};
use crate::effects::{Deed, Effect};
use crate::events::Event;
use crate::hotstuff::acting;
use crate::hotstuff::body_laws;
use crate::hotstuff::body_push;
use crate::hotstuff::body_push::BODY_PUSH_HARD_CAP_BYTES;
use crate::hotstuff::laws;
use crate::hotstuff::messages;
use crate::hotstuff::messages::{
    BlockDataResponse, HotStuffMessage, NERequest, NewView, Nudge, PhaseVote, Proposal,
    ProposalRequest,
};
use crate::hotstuff::order_laws;
use crate::hotstuff::proposal_laws;
use crate::hotstuff::proposing;
use crate::hotstuff::proposing::ProductionPlan;
use crate::hotstuff::speaking;
use crate::hotstuff::state;
use crate::hotstuff::state::{HsView, RecoveryView, Run, SeenProposal};
use crate::hotstuff::types::{Phase, PhaseCertificate};
use crate::hotstuff::voting;
use crate::pacemaker::{TimeoutCertificate, TipInfo, ViewInfo};
use crate::roles::Roles;
use crate::types::block::Block;
use crate::types::data_types::{CryptoHash, Power, VerifyingKey};
use crate::types::update_sets::AppStateUpdates;
use crate::types::validator_set;
use crate::types::validator_set::{ValidatorSetUpdates, ValidatorSetUpdatesStatus};

verus! {

/// The new-view message of a participant that leaves a view: for its chain, with the view that it
/// leaves and the highest certificate.
pub open spec fn parting_words(run: Run) -> NewView {
    NewView {
        chain_id: run.hs.chain_id,
        view: run.hs.view_info.view,
        highest_pc: run.tree.highest_pc->0,
    }
}

/// Whether `after` comes of `before` by sending the parting words to the next leaders before
/// anything else is done.
pub open spec fn parted_first<R: Roles>(before: Run, after: Run, roles: R) -> bool {
    let words = HotStuffMessage::NewView(parting_words(before));
    let (first, second) = roles.next_leaders(
        parting_words(before),
        tree::validators_of(before.tree),
        tree::reputation_of(before.tree).0,
    );
    let n = before.done.len() as int;
    &&& before.done.len() < after.done.len()
    &&& forall|i: int| 0 <= i < n ==> #[trigger] after.done[i] == before.done[i]
    &&& after.done[n] == Deed::Other(Effect::Send(first, words))
    &&& second matches Some(second) ==> n + 1 < after.done.len() && after.done[n + 1]
        == Deed::Other(Effect::Send(second, words))
}

/// What leaving a view comes to.
proof fn lemma_left_view<R: Roles>(run: Run, roles: R)
    ensures
        ({
            let after = proposing::left_view(run, roles);
            &&& after.tree == run.tree
            &&& after.hs == run.hs
            &&& parted_first(run, after, roles)
        }),
{
    let words = HotStuffMessage::NewView(parting_words(run));
    let (first, second) = roles.next_leaders(
        parting_words(run),
        tree::validators_of(run.tree),
        tree::reputation_of(run.tree).0,
    );
    let informed = state::did(run, voting::sent(first, words));
    assert(voting::sent(first, words) =~= seq![speaking::to_peer(first, words)]);
    speaking::lemma_spoke(run, speaking::to_peer(first, words));
    let all = match second {
        Some(second) => state::did(informed, voting::sent(second, words)),
        None => informed,
    };
    if let Some(second) = second {
        assert(voting::sent(second, words) =~= seq![speaking::to_peer(second, words)]);
        speaking::lemma_spoke(informed, speaking::to_peer(second, words));
    }
    speaking::lemma_told(all, Event::NewView { new_view: parting_words(run) });
}

/// Whether what was done before stands at the front of what was done after.
pub open spec fn goes_on(before: Run, after: Run) -> bool {
    &&& before.done.len() <= after.done.len()
    &&& forall|i: int| 0 <= i < before.done.len() ==> #[trigger] after.done[i] == before.done[i]
}

/// A leader at work goes on from where it is.
proof fn lemma_took_lead_goes_on(run: Run)
    ensures
        goes_on(run, proposing::took_lead(run).0),
{
}

/// A replica that enters another view first tells every next leader that the roles name of the view
/// that it leaves and of its highest certificate: the first one and, if there is one, the second.
/// Only then does it do anything else.
pub proof fn law_next_leaders_hear_of_the_highest_certificate<R: Roles>(
    run: Run,
    roles: R,
    view_info: ViewInfo,
)
    requires
        view_info.view != run.hs.view_info.view,
    ensures
        parted_first(run, proposing::entered(run, roles, view_info).0, roles),
{
    lemma_left_view(run, roles);
    let left = proposing::left_view(run, roles);
    let after = proposing::moved_on(left, view_info);
    assert(goes_on(left, after));
    let end = proposing::entered(run, roles, view_info).0;
    if proposing::leads(after, roles) {
        lemma_took_lead_goes_on(after);
    }
    assert(goes_on(left, end)) by {
        assert forall|i: int| 0 <= i < left.done.len() implies #[trigger] end.done[i]
            == left.done[i] by {
            assert(after.done[i] == left.done[i]);
        }
    }
    let n = run.done.len() as int;
    assert(end.done[n] == left.done[n]);
    assert forall|i: int| 0 <= i < n implies #[trigger] end.done[i] == run.done[i] by {
        assert(left.done[i] == run.done[i]);
        assert(end.done[i] == left.done[i]);
    }
}

/// What a leader announces by broadcasting it: the header of a proposal, field by field.
pub open spec fn announces(deed: Deed, proposal: Proposal, changes_validators: bool) -> bool {
    match deed {
        Deed::Other(Effect::Broadcast(HotStuffMessage::ProposalHeader(header))) => {
            &&& header.chain_id == proposal.chain_id
            &&& header.view == proposal.view
            &&& header.block_hash == proposal.block.hash
            &&& header.height == proposal.block.height
            &&& header.data_hash == proposal.block.data_hash
            &&& header.justify == proposal.block.justify
            &&& header.tc == proposal.tc
            &&& header.nec == proposal.nec
            &&& header.has_validator_set_updates == changes_validators
        },
        _ => false,
    }
}

/// Whether the body of a proposed block is sent to a validator other than `me`.
pub open spec fn sends_body(
    deed: Deed,
    proposal: Proposal,
    validators: Seq<(VerifyingKey, Power)>,
    me: VerifyingKey,
) -> bool {
    match deed {
        Deed::Other(Effect::Send(key, HotStuffMessage::BlockDataResponse(response))) => {
            &&& key != me
            &&& exists|i: int| 0 <= i < validators.len() && (#[trigger] validators[i]).0 == key
            &&& response.view == proposal.view
            &&& response.block == proposal.block
        },
        _ => false,
    }
}

/// Whether `said` goes on from `before` with the announcement of a proposal: its header goes to all
/// first. Then, if its body is small enough to be pushed, the body goes to every other validator,
/// and to nobody else.
pub open spec fn goes_on_with_proposal(
    before: Seq<Deed>,
    said: Seq<Deed>,
    proposal: Proposal,
    changes_validators: bool,
    validators: Seq<(VerifyingKey, Power)>,
    me: VerifyingKey,
    limit: u64,
) -> bool {
    let n = before.len() as int;
    let size = body_push::data_bytes(proposal.block.data@);
    let pushed = size <= limit && limit > 0 && size <= BODY_PUSH_HARD_CAP_BYTES;
    &&& n < said.len()
    &&& forall|i: int| 0 <= i < n ==> #[trigger] said[i] == before[i]
    &&& announces(said[n], proposal, changes_validators)
    &&& forall|i: int|
        n < i < said.len() ==> sends_body(#[trigger] said[i], proposal, validators, me)
    &&& !pushed ==> said.len() == n + 1
    &&& pushed ==> forall|j: int|
        0 <= j < validators.len() && (#[trigger] validators[j]).0 != me ==> exists|i: int|
            n < i < said.len() && #[trigger] is_body_for(said[i], validators[j].0)
}

/// Whether a body is sent to `key`.
pub open spec fn is_body_for(deed: Deed, key: VerifyingKey) -> bool {
    match deed {
        Deed::Other(Effect::Send(to, HotStuffMessage::BlockDataResponse(_))) => to == key,
        _ => false,
    }
}

/// What pushing a body says.
proof fn lemma_pushes(
    validators: Seq<(VerifyingKey, Power)>,
    me: VerifyingKey,
    proposal: Proposal,
)
    ensures
        ({
            let deeds = proposing::push_deeds(
                validators,
                me,
                BlockDataResponse { view: proposal.view, block: proposal.block },
            );
            &&& speaking::said(deeds) == deeds
            &&& forall|i: int|
                0 <= i < deeds.len() ==> sends_body(#[trigger] deeds[i], proposal, validators, me)
            &&& forall|j: int|
                0 <= j < validators.len() && (#[trigger] validators[j]).0 != me ==> exists|i: int|
                    0 <= i < deeds.len() && #[trigger] is_body_for(deeds[i], validators[j].0)
        }),
    decreases validators.len(),
{
    let response = BlockDataResponse { view: proposal.view, block: proposal.block };
    let deeds = proposing::push_deeds(validators, me, response);
    if validators.len() > 0 {
        let fewer = validators.drop_last();
        let n = fewer.len() as int;
        lemma_pushes(fewer, me, proposal);
        let before = proposing::push_deeds(fewer, me, response);
        let key = validators.last().0;
        let last = speaking::to_peer(key, HotStuffMessage::BlockDataResponse(response));
        assert(validators[n].0 == key);
        if key != me {
            assert(deeds =~= before + seq![last]);
            speaking::lemma_said_one(last);
            speaking::lemma_said_concat(before, seq![last]);
            assert(is_body_for(deeds[before.len() as int], key));
        }
        assert forall|i: int| 0 <= i < deeds.len() implies sends_body(
            #[trigger] deeds[i],
            proposal,
            validators,
            me,
        ) by {
            if i < before.len() {
                assert(deeds[i] == before[i]);
                assert(sends_body(before[i], proposal, fewer, me));
                let to = deeds[i]->Other_0->Send_0;
                let j = choose|j: int| 0 <= j < fewer.len() && (#[trigger] fewer[j]).0 == to;
                assert(validators[j].0 == to);
            }
        }
        assert forall|j: int|
            0 <= j < validators.len() && (#[trigger] validators[j]).0 != me implies exists|i: int|
            0 <= i < deeds.len() && #[trigger] is_body_for(deeds[i], validators[j].0) by {
            if j < n {
                assert(fewer[j] == validators[j]);
                let i = choose|i: int|
                    0 <= i < before.len() && #[trigger] is_body_for(before[i], fewer[j].0);
                assert(deeds[i] == before[i]);
                assert(is_body_for(deeds[i], validators[j].0));
            } else {
                assert(is_body_for(deeds[before.len() as int], validators[j].0));
            }
        }
    }
}

/// A proposal is announced by its header, with all that the header has to say, to all validators.
/// Only a body that is small enough is sent along, to every other validator and to nobody else.
/// Nothing in the tree changes, and the block is kept to serve its body.
pub proof fn law_proposals_are_announced_by_their_header(
    run: Run,
    proposal: Proposal,
    changes_validators: bool,
)
    ensures
        ({
            let after = proposing::proposed(run, proposal, changes_validators);
            &&& goes_on_with_proposal(
                speaking::said(run.done),
                speaking::said(after.done),
                proposal,
                changes_validators,
                tree::validators_of(run.tree).committed,
                run.hs.keypair.public_key(),
                run.hs.push_limit,
            )
            &&& after.tree == run.tree
            &&& after.hs == (HsView { pending_bodies: after.hs.pending_bodies, ..run.hs })
            &&& after.hs.pending_bodies.contains_key(proposal.block.hash)
            &&& after.hs.pending_bodies[proposal.block.hash] == proposal.block
            &&& after.done.contains(Deed::Other(Effect::StoreBlockForServing(proposal.block)))
        }),
{
    let after = proposing::proposed(run, proposal, changes_validators);
    let stored = Deed::Other(Effect::StoreBlockForServing(proposal.block));
    let header = messages::header_of(proposal, changes_validators);
    let broadcast = speaking::to_all(HotStuffMessage::ProposalHeader(header));
    let both = seq![stored, broadcast];
    let kept = state::now_holding(
        run,
        HsView {
            pending_bodies: run.hs.pending_bodies.insert(proposal.block.hash, proposal.block),
            ..run.hs
        },
    );
    let announced = state::did(kept, both);
    let first = seq![stored];
    let second = seq![broadcast];
    assert(both =~= first + second);
    tree::lemma_replay_one(kept.tree, stored);
    tree::lemma_replay_one(kept.tree, broadcast);
    tree::lemma_replay_concat(kept.tree, first, second);
    speaking::lemma_said_one(stored);
    speaking::lemma_said_one(broadcast);
    speaking::lemma_said_concat(first, second);
    assert(speaking::said(both) =~= seq![broadcast]);
    speaking::lemma_said_concat(run.done, both);
    let validators = tree::validators_of(run.tree).committed;
    let me = run.hs.keypair.public_key();
    let response = BlockDataResponse { view: proposal.view, block: proposal.block };
    let deeds = proposing::push_deeds(validators, me, response);
    let is_pushed = body_push::pushes(body_push::body_size(proposal.block.data), run.hs.push_limit);
    let pushed = if is_pushed {
        state::did(announced, deeds)
    } else {
        announced
    };
    if is_pushed {
        lemma_pushes(validators, me, proposal);
        speaking::lemma_said_concat(announced.done, deeds);
        lemma_unwritten(announced.tree, deeds, validators, me, proposal);
    }
    speaking::lemma_told(pushed, Event::Propose { proposal });
    let before = speaking::said(run.done);
    let said = speaking::said(after.done);
    let n = before.len() as int;
    if is_pushed {
        assert(said =~= before + seq![broadcast] + deeds);
        assert forall|j: int|
            0 <= j < validators.len() && (#[trigger] validators[j]).0 != me implies exists|i: int|
            n < i < said.len() && #[trigger] is_body_for(said[i], validators[j].0) by {
            let i = choose|i: int|
                0 <= i < deeds.len() && #[trigger] is_body_for(deeds[i], validators[j].0);
            assert(said[n + 1 + i] == deeds[i]);
            assert(is_body_for(said[n + 1 + i], validators[j].0));
        }
        assert forall|i: int| n < i < said.len() implies sends_body(
            #[trigger] said[i],
            proposal,
            validators,
            me,
        ) by {
            assert(said[i] == deeds[i - n - 1]);
        }
    } else {
        assert(said =~= before + seq![broadcast]);
    }
    assert(after.done[run.done.len() as int] == stored);
}

/// What is only sent changes nothing in the tree.
proof fn lemma_unwritten(
    tree: TreeView,
    deeds: Seq<Deed>,
    validators: Seq<(VerifyingKey, Power)>,
    me: VerifyingKey,
    proposal: Proposal,
)
    requires
        forall|i: int|
            0 <= i < deeds.len() ==> sends_body(#[trigger] deeds[i], proposal, validators, me),
    ensures
        tree::replay(tree, deeds) == tree,
    decreases deeds.len(),
{
    if deeds.len() > 0 {
        let fewer = deeds.drop_last();
        assert forall|i: int| 0 <= i < fewer.len() implies sends_body(
            #[trigger] fewer[i],
            proposal,
            validators,
            me,
        ) by {
            assert(fewer[i] == deeds[i]);
        }
        lemma_unwritten(tree, fewer, validators, me, proposal);
        assert(sends_body(deeds[deeds.len() - 1], proposal, validators, me));
    }
}

/// Whether a planned block goes right on top of a certificate: the certificate justifies it, its
/// parent is the block of the certificate and it is one higher; on top of the genesis certificate it
/// is the first block.
pub open spec fn goes_on_top(tree: TreeView, plan: ProductionPlan, pc: PhaseCertificate) -> bool {
    &&& plan.justify == pc
    &&& if pc.is_genesis() {
        plan.parent is None && plan.height.0 == 0
    } else {
        &&& plan.parent == Some(pc.block)
        &&& tree.blocks.contains_key(pc.block)
        &&& plan.height.0 == tree.blocks[pc.block].height.0 + 1
    }
}

/// A leader that starts from a generic or decide certificate plans a block right on top of it and
/// says nothing yet. It puts that off only if it lacks the block of the certificate, or if there is
/// no higher height. From a certificate of any other phase it broadcasts a nudge that carries the
/// certificate, for its chain and the view that it is in, and plans nothing.
pub proof fn law_leaders_start_from_the_highest_certificate(run: Run)
    ensures
        ({
            let pc = run.tree.highest_pc->0;
            let (after, plan) = proposing::started_from_highest(run);
            &&& after.tree == run.tree
            &&& if pc.phase == Phase::Generic || pc.phase == Phase::Decide {
                &&& speaking::said(after.done) == speaking::said(run.done)
                &&& plan matches Some(plan) ==> goes_on_top(run.tree, plan, pc) && after.hs
                    == run.hs && plan.occasion is Lead
                &&& plan is None ==> {
                    &&& !pc.is_genesis()
                    &&& !run.tree.blocks.contains_key(pc.block)
                        || run.tree.blocks[pc.block].height.0 == u64::MAX
                    &&& after.hs == (HsView { proposal_deferred: true, ..run.hs })
                }
            } else {
                &&& plan is None
                &&& after.hs == run.hs
                &&& speaking::said(after.done) == speaking::said(run.done).push(
                    speaking::to_all(
                        HotStuffMessage::Nudge(
                            Nudge {
                                chain_id: run.hs.chain_id,
                                view: run.hs.view_info.view,
                                justify: pc,
                            },
                        ),
                    ),
                )
            }
        }),
{
    let pc = run.tree.highest_pc->0;
    if pc.phase != Phase::Generic && pc.phase != Phase::Decide {
        let nudge = Nudge { chain_id: run.hs.chain_id, view: run.hs.view_info.view, justify: pc };
        let deed = speaking::to_all(HotStuffMessage::Nudge(nudge));
        speaking::lemma_spoke(run, deed);
        speaking::lemma_told(state::did(run, seq![deed]), Event::Nudge { nudge });
    }
}

/// A proposal that was put off is tried again on top of the highest certificate as it is then, by a
/// leader of the view and on a certificate that calls for a block, and is no longer put off unless
/// the block of the certificate is still missing. Nothing is said before the block is produced.
pub proof fn law_put_off_proposals_are_tried_again<R: Roles>(run: Run, roles: R)
    ensures
        ({
            let pc = run.tree.highest_pc->0;
            let (after, plan) = proposing::retried(run, roles);
            &&& after.tree == run.tree
            &&& after.done == run.done
            &&& plan matches Some(plan) ==> goes_on_top(run.tree, plan, pc) && plan.occasion
                is Retry && !after.hs.proposal_deferred
            &&& roles.proposes(
                run.hs.keypair.public_key(),
                run.hs.view_info.view,
                tree::validators_of(run.tree),
                tree::reputation_of(run.tree).0,
            ) && (pc.phase == Phase::Generic || pc.phase == Phase::Decide) ==> (plan is Some <==> (
            pc.is_genesis() || (run.tree.blocks.contains_key(pc.block)
                && run.tree.blocks[pc.block].height.0 < u64::MAX))) && (plan is None
                ==> after.hs.proposal_deferred)
        }),
{
}

/// A leader that enters a view in which a change of validators was left half way, with views skipped
/// since, proposes the block of its highest certificate again. Otherwise, where the previous view
/// timed out on a high tip that it holds, it proposes the block of the tip again and hands on the
/// timeout certificate. In both cases it plans no block of its own.
pub proof fn law_blocks_are_proposed_again(run: Run)
    ensures
        ({
            let pc = run.tree.highest_pc->0;
            let view = run.hs.view_info.view;
            let (after, result) = proposing::took_lead(run);
            let left_off = (pc.phase == Phase::Prepare || pc.phase == Phase::Precommit)
                && pc.view.0 + 1 != view.0;
            &&& left_off && run.tree.blocks.contains_key(pc.block) ==> result == Ok::<
                Option<ProductionPlan>,
                BlockTreeError,
            >(None) && goes_on_with_proposal(
                speaking::said(run.done),
                speaking::said(after.done),
                Proposal {
                    chain_id: run.hs.chain_id,
                    view,
                    block: run.tree.blocks[pc.block],
                    tc: None,
                    nec: None,
                },
                tree::updates_status(run.tree, pc.block) != ValidatorSetUpdatesStatus::NoUpdates,
                tree::validators_of(run.tree).committed,
                run.hs.keypair.public_key(),
                run.hs.push_limit,
            )
            &&& left_off && !run.tree.blocks.contains_key(pc.block) ==> result is Err
                && after.done == run.done
            &&& !left_off && run.tree.highest_tc is Some ==> ({
                let tc = run.tree.highest_tc->0;
                &&& tc.view.0 + 1 == view.0 && tc.high_tip is Some && tc.high_tip_is_winner
                    && run.tree.blocks.contains_key((tc.high_tip->0).block_hash) ==> result == Ok::<
                    Option<ProductionPlan>,
                    BlockTreeError,
                >(None) && goes_on_with_proposal(
                    speaking::said(run.done),
                    speaking::said(after.done),
                    Proposal {
                        chain_id: run.hs.chain_id,
                        view,
                        block: run.tree.blocks[(tc.high_tip->0).block_hash],
                        tc: Some(tc),
                        nec: None,
                    },
                    tree::updates_status(run.tree, (tc.high_tip->0).block_hash)
                        != ValidatorSetUpdatesStatus::NoUpdates,
                    tree::validators_of(run.tree).committed,
                    run.hs.keypair.public_key(),
                    run.hs.push_limit,
                )
                &&& tc.view.0 + 1 != view.0 || tc.high_tip is None || !tc.high_tip_is_winner
                    ==> after == proposing::started_from_highest(run).0 && result == Ok::<
                    Option<ProductionPlan>,
                    BlockTreeError,
                >(proposing::started_from_highest(run).1)
            })
            &&& !left_off && run.tree.highest_tc is None ==> after
                == proposing::started_from_highest(run).0 && result == Ok::<
                Option<ProductionPlan>,
                BlockTreeError,
            >(proposing::started_from_highest(run).1)
        }),
{
    let pc = run.tree.highest_pc->0;
    let again = proposing::proposal_for(run.hs, run.tree.blocks[pc.block], None, None);
    law_proposals_are_announced_by_their_header(
        run,
        again,
        proposing::changes_validators(run.tree, pc.block),
    );
    if let Some(tc) = run.tree.highest_tc {
        if let Some(tip) = tc.high_tip {
            law_proposals_are_announced_by_their_header(
                run,
                proposing::proposal_for(run.hs, run.tree.blocks[tip.block_hash], Some(tc), None),
                proposing::changes_validators(run.tree, tip.block_hash),
            );
        }
    }
}

/// A replica that enters a view is in that view, which the tree records as entered; nothing else in
/// the tree changes. It waits for a proposal anew, collects votes for the view of its chain afresh
/// from the validators, and has put off nothing from before. A replica that does not lead the view
/// says nothing but its parting words.
pub proof fn law_entered_views_are_recorded<R: Roles>(run: Run, roles: R, view_info: ViewInfo)
    requires
        tree::initialized(run.tree),
    ensures
        ({
            let after = proposing::moved_on(proposing::left_view(run, roles), view_info);
            let validators = tree::validators_of(run.tree);
            &&& after.tree == (TreeView {
                highest_view_entered: Some(view_info.view),
                ..run.tree
            })
            &&& after.hs.view_info == view_info
            &&& after.hs.status is WaitingForProposal
            &&& after.hs.recovery is Idle
            &&& !after.hs.proposal_deferred
            &&& after.hs.collectors.committed.chain_id == run.hs.chain_id
            &&& after.hs.collectors.committed.view == view_info.view
            &&& after.hs.collectors.committed.validators == validators.committed
            &&& after.hs.collectors.committed.tallies.dom().is_empty()
            &&& after.hs.collectors.previous is None <==> validators.update_decided
            &&& after.hs.collectors.previous matches Some(previous) ==> {
                &&& previous.chain_id == run.hs.chain_id
                &&& previous.view == view_info.view
                &&& previous.validators == validators.previous
                &&& previous.tallies.dom().is_empty()
            }
            &&& speaking::said(after.done) == speaking::said(
                proposing::left_view(run, roles).done,
            )
            &&& view_info.view != run.hs.view_info.view && !proposing::leads(after, roles)
                ==> proposing::entered(run, roles, view_info) == (
                after,
                Ok::<Option<ProductionPlan>, BlockTreeError>(None),
            )
        }),
{
    lemma_left_view(run, roles);
    let left = proposing::left_view(run, roles);
    let after = proposing::moved_on(left, view_info);
    let fresh = state::now_holding(left, after.hs);
    speaking::lemma_wrote(fresh, WriteOp::SetHighestViewEntered(view_info.view));
    let recorded = state::did(
        fresh,
        variables::written(WriteOp::SetHighestViewEntered(view_info.view)),
    );
    speaking::lemma_told(recorded, Event::StartView { view: view_info.view });
}

/// What a leader writes of its block says nothing.
proof fn lemma_stored<R: Roles>(
    run: Run,
    roles: R,
    changes: Seq<Change>,
    block: Block,
    is_retry: bool,
)
    requires
        tree::initialized(run.tree),
        sparing::spares(Kind::Votes, changes),
    ensures
        ({
            let (after, result) = acting::updated(run, roles, changes, block.justify);
            let stored = match result {
                Ok(_) => after,
                Err(_) => state::did(after, seq![Deed::Persist(changes)]),
            };
            let missing = result matches Err(e) && acting::misses_block(Some(e));
            let flagged = state::now_holding(
                stored,
                HsView {
                    sync_needed: stored.hs.sync_needed || (is_retry && missing),
                    ..stored.hs
                },
            );
            let noted = state::told(flagged, Event::InsertBlock { block });
            &&& noted.hs == (HsView { sync_needed: noted.hs.sync_needed, ..run.hs })
            &&& speaking::said(noted.done) == speaking::said(run.done)
            &&& tree::initialized(noted.tree)
        }),
{
    let (after, result) = acting::updated(run, roles, changes, block.justify);
    match updates::staged_update_outcome(run.tree, changes, block.justify, roles, run.retention) {
        Ok((deeds, committed)) => {
            order_laws::lemma_update_is_inner(
                run.tree,
                changes,
                block.justify,
                roles,
                run.retention,
            );
            speaking::lemma_inner_is_silent(deeds);
            speaking::lemma_said_concat(run.done, deeds);
            assert(speaking::said(run.done) + Seq::<Deed>::empty() =~= speaking::said(run.done));
            tree::lemma_replay_keeps_initialized(run.tree, deeds);
        },
        Err(_) => {
            speaking::lemma_persisted(after, changes);
            tree::lemma_changes_keep_initialized(run.tree, changes);
        },
    }
    let stored = match result {
        Ok(_) => after,
        Err(_) => state::did(after, seq![Deed::Persist(changes)]),
    };
    let missing = result matches Err(e) && acting::misses_block(Some(e));
    let flagged = state::now_holding(
        stored,
        HsView { sync_needed: stored.hs.sync_needed || (is_retry && missing), ..stored.hs },
    );
    speaking::lemma_told(flagged, Event::InsertBlock { block });
}

/// A leader that does not defer the feed announces the block that it produced, once, as a proposal in
/// its view that rests on neither a timeout nor a no-endorsement, and says nothing else.
pub proof fn law_produced_blocks_are_announced<R: Roles>(
    run: Run,
    roles: R,
    block: Block,
    app_state_updates: Option<AppStateUpdates>,
    validator_set_updates: Option<ValidatorSetUpdates>,
    is_retry: bool,
)
    requires
        tree::initialized(run.tree),
        !run.hs.defer_feed,
    ensures
        ({
            let after = proposing::led(
                run,
                roles,
                block,
                app_state_updates,
                validator_set_updates,
                is_retry,
            );
            goes_on_with_proposal(
                speaking::said(run.done),
                speaking::said(after.done),
                Proposal {
                    chain_id: run.hs.chain_id,
                    view: run.hs.view_info.view,
                    block,
                    tc: None,
                    nec: None,
                },
                validator_set_updates is Some,
                tree::validators_of(after.tree).committed,
                run.hs.keypair.public_key(),
                run.hs.push_limit,
            )
        }),
{
    let changes = updates::insertion(run.tree, block, app_state_updates, validator_set_updates);
    assert(sparing::spares(Kind::Votes, changes)) by {
        reveal(sparing::spares);
    }
    lemma_stored(run, roles, changes, block, is_retry);
    let (after, result) = acting::updated(run, roles, changes, block.justify);
    let (stored, committed, missing) = match result {
        Ok(committed) => (after, committed, false),
        Err(e) => (
            state::did(after, seq![Deed::Persist(changes)]),
            Seq::<CommittedBlock>::empty(),
            acting::misses_block(Some(e)),
        ),
    };
    let flagged = state::now_holding(
        stored,
        HsView { sync_needed: stored.hs.sync_needed || (is_retry && missing), ..stored.hs },
    );
    let noted = state::told(flagged, Event::InsertBlock { block });
    speaking::lemma_made_known(noted, committed);
    let known = acting::made_known(noted, committed);
    law_proposals_are_announced_by_their_header(
        known,
        proposing::proposal_for(noted.hs, block, None, None),
        validator_set_updates is Some,
    );
}

/// What a leader says that handles its own header at once.
proof fn lemma_handled_inline<R: Roles>(
    run: Run,
    roles: R,
    block: Block,
    changes_validators: bool,
    locked: bool,
)
    requires
        tree::initialized(run.tree),
    ensures
        ({
            let after = proposing::handled_inline(run, roles, block, changes_validators, locked);
            &&& tree::initialized(after.tree)
            &&& speaking::said(after.done) == speaking::said(run.done) || exists|
                vote: PhaseVote,
                to: VerifyingKey,
            |
                speaking::said(after.done) == speaking::said(run.done).push(
                    #[trigger] speaking::to_peer(to, HotStuffMessage::PhaseVote(vote)),
                ) && proposal_laws::is_first_vote(run, vote, block.hash, changes_validators)
        }),
{
    let me = run.hs.keypair.public_key();
    let view = run.hs.view_info.view;
    let noted = state::now_holding(
        run,
        HsView {
            inline_header: Some(block.hash),
            seen: if state::recalled(run.hs.seen, view, me) is Some {
                run.hs.seen
            } else {
                run.hs.seen.push(SeenProposal { view, leader: me, hash: block.hash })
            },
            status: state::heard(run.hs.status, me),
            ..run.hs
        },
    );
    proposal_laws::lemma_locked_ahead(noted, roles, block.justify);
    let safe = if locked {
        noted
    } else {
        state::did(noted, updates::locks_only_deeds(noted.tree, block.justify, roles))
    };
    let phase = if changes_validators {
        Phase::Prepare
    } else {
        Phase::Generic
    };
    proposal_laws::lemma_voted(safe, roles, block.hash, phase, None);
    let vote = voting::vote_of(safe.hs, block.hash, phase);
    let to = voting::counter_of(safe, roles, vote);
    assert(proposal_laws::is_first_vote(run, vote, block.hash, changes_validators));
    let after = proposing::handled_inline(run, roles, block, changes_validators, locked);
    if voting::may_vote(safe, roles, block.justify) {
        assert(speaking::said(after.done) == speaking::said(run.done).push(
            speaking::to_peer(to, HotStuffMessage::PhaseVote(vote)),
        ));
        lemma_voted_stays_initialized(safe, roles, block.hash, phase);
    }
}

proof fn lemma_voted_stays_initialized<R: Roles>(
    run: Run,
    roles: R,
    block: CryptoHash,
    phase: Phase,
)
    requires
        tree::initialized(run.tree),
    ensures
        tree::initialized(voting::voted(run, roles, block, phase, None).tree),
{
    let vote = voting::vote_of(run.hs, block, phase);
    let to = voting::counter_of(run, roles, vote);
    let record = variables::vote_recorded(run.hs.view_info.view, block);
    let sending = voting::sent(to, HotStuffMessage::PhaseVote(vote));
    let recorded = state::did(run, record);
    tree::lemma_replay_keeps_initialized(run.tree, record);
    tree::lemma_replay_keeps_initialized(recorded.tree, sending);
    let sent = state::did(recorded, sending);
    tree::lemma_replay_keeps_initialized(
        sent.tree,
        seq![Deed::Other(Effect::Publish(Event::PhaseVote { vote }))],
    );
}

/// A leader that defers the feed announces the block that it produced first, and says at most one
/// thing more: its own first vote for the block in its view.
pub proof fn law_produced_blocks_are_announced_and_voted_for<R: Roles>(
    run: Run,
    roles: R,
    block: Block,
    app_state_updates: Option<AppStateUpdates>,
    validator_set_updates: Option<ValidatorSetUpdates>,
    is_retry: bool,
)
    requires
        tree::initialized(run.tree),
        run.hs.defer_feed,
    ensures
        ({
            let after = proposing::led(
                run,
                roles,
                block,
                app_state_updates,
                validator_set_updates,
                is_retry,
            );
            exists|words: Seq<Deed>, validators: Seq<(VerifyingKey, Power)>|
                {
                    &&& #[trigger] goes_on_with_proposal(
                        speaking::said(run.done),
                        words,
                        Proposal {
                            chain_id: run.hs.chain_id,
                            view: run.hs.view_info.view,
                            block,
                            tc: None,
                            nec: None,
                        },
                        validator_set_updates is Some,
                        validators,
                        run.hs.keypair.public_key(),
                        run.hs.push_limit,
                    )
                    &&& speaking::said(after.done) == words || exists|
                        vote: PhaseVote,
                        to: VerifyingKey,
                    |
                        speaking::said(after.done) == words.push(
                            #[trigger] speaking::to_peer(to, HotStuffMessage::PhaseVote(vote)),
                        ) && proposal_laws::is_first_vote(
                            run,
                            vote,
                            block.hash,
                            validator_set_updates is Some,
                        )
                }
        }),
{
    let changes = updates::insertion(run.tree, block, app_state_updates, validator_set_updates);
    assert(sparing::spares(Kind::Votes, changes)) by {
        reveal(sparing::spares);
    }
    lemma_stored(run, roles, changes, block, is_retry);
    let (after, result) = acting::updated(run, roles, changes, block.justify);
    let (stored, committed, missing) = match result {
        Ok(committed) => (after, committed, false),
        Err(e) => (
            state::did(after, seq![Deed::Persist(changes)]),
            Seq::<CommittedBlock>::empty(),
            acting::misses_block(Some(e)),
        ),
    };
    let flagged = state::now_holding(
        stored,
        HsView { sync_needed: stored.hs.sync_needed || (is_retry && missing), ..stored.hs },
    );
    let noted = state::told(flagged, Event::InsertBlock { block });
    let proposal = proposing::proposal_for(noted.hs, block, None, None);
    let changes_validators = validator_set_updates is Some;
    law_proposals_are_announced_by_their_header(noted, proposal, changes_validators);
    let announced = proposing::proposed(noted, proposal, changes_validators);
    lemma_handled_inline(announced, roles, block, changes_validators, result is Ok);
    let handled = proposing::handled_inline(
        announced,
        roles,
        block,
        changes_validators,
        result is Ok,
    );
    speaking::lemma_made_known(handled, committed);
    let words = speaking::said(announced.done);
    let validators = tree::validators_of(noted.tree).committed;
    assert(goes_on_with_proposal(
        speaking::said(run.done),
        words,
        proposal,
        changes_validators,
        validators,
        run.hs.keypair.public_key(),
        run.hs.push_limit,
    ));
    if speaking::said(handled.done) != words {
        let (vote, to) = choose|vote: PhaseVote, to: VerifyingKey|
            speaking::said(handled.done) == words.push(
                #[trigger] speaking::to_peer(to, HotStuffMessage::PhaseVote(vote)),
            ) && proposal_laws::is_first_vote(announced, vote, block.hash, changes_validators);
        assert(proposal_laws::is_first_vote(run, vote, block.hash, changes_validators));
    }
}

/// A leader that completes a planned block announces a block that has the planned height, rests on
/// the planned certificate, and holds what the application produced, under the hash of just these.
pub proof fn law_planned_blocks_are_what_was_planned(
    plan: ProductionPlan,
    response: ProduceBlockResponse,
)
    ensures
        ({
            let block = proposing::planned_block(plan, response);
            &&& block.height == plan.height
            &&& block.justify == plan.justify
            &&& block.data == response.data
            &&& block.data_hash == response.data_hash
            &&& block.hash == crate::types::block::block_hash(
                plan.height,
                plan.justify,
                response.data_hash,
            )
        }),
{
}

/// A leader that passes over the block of a timed-out view announces the block that it produced
/// instead as a proposal that carries the timeout certificate and the no-endorsement certificate.
pub proof fn law_passing_over_is_announced<R: Roles>(
    run: Run,
    roles: R,
    plan: ProductionPlan,
    response: ProduceBlockResponse,
)
    requires
        plan.occasion is Recovery,
    ensures
        ({
            let after = proposing::completed(run, roles, plan, response);
            goes_on_with_proposal(
                speaking::said(run.done),
                speaking::said(after.done),
                Proposal {
                    chain_id: run.hs.chain_id,
                    view: run.hs.view_info.view,
                    block: proposing::planned_block(plan, response),
                    tc: Some(plan.occasion->tc),
                    nec: Some(plan.occasion->nec),
                },
                response.validator_set_updates is Some,
                tree::validators_of(run.tree).committed,
                run.hs.keypair.public_key(),
                run.hs.push_limit,
            ) && after.tree == run.tree
        }),
{
    law_proposals_are_announced_by_their_header(
        run,
        proposing::proposal_for(
            run.hs,
            proposing::planned_block(plan, response),
            Some(plan.occasion->tc),
            Some(plan.occasion->nec),
        ),
        response.validator_set_updates is Some,
    );
}

/// Whether a deed asks a validator other than `me` for the block of a timed-out view.
pub open spec fn asks_for_timed_out_block(
    deed: Deed,
    validators: Seq<(VerifyingKey, Power)>,
    me: VerifyingKey,
    request: ProposalRequest,
) -> bool {
    match deed {
        Deed::Other(Effect::Send(key, HotStuffMessage::ProposalRequest(sent))) => {
            &&& sent == request
            &&& key != me
            &&& exists|i: int| 0 <= i < validators.len() && (#[trigger] validators[i]).0 == key
        },
        _ => false,
    }
}

/// A leader that lacks the block of a timed-out view's high tip asks other validators for it: as many
/// as it takes for one of them to be correct if less than a third are faulty, each with power one, or
/// all of them. Then it asks all validators for no-endorsements. Each request is for its chain and
/// view and carries the timeout certificate. From then on it collects no-endorsements for its view
/// and the view of the tip's certificate, having none yet.
pub proof fn law_leaders_look_for_blocks_that_they_lack(
    run: Run,
    tc: TimeoutCertificate,
    tip: TipInfo,
)
    ensures
        ({
            let view = run.hs.view_info.view;
            let chain_id = run.hs.chain_id;
            let validators = tree::validators_of(run.tree).committed;
            let me = run.hs.keypair.public_key();
            let others = proposing::others(validators, me).len() as int;
            let total = validator_set::power_sum(validators) as int;
            let before = speaking::said(run.done);
            let after = proposing::recovering(run, tc, tip);
            let said = speaking::said(after.done);
            let n = before.len() as int;
            &&& after.tree == run.tree
            &&& said.len() > n
            &&& forall|i: int| 0 <= i < n ==> #[trigger] said[i] == before[i]
            &&& forall|i: int|
                n <= i < said.len() - 1 ==> asks_for_timed_out_block(
                    #[trigger] said[i],
                    validators,
                    me,
                    ProposalRequest { chain_id, view, tc },
                )
            &&& 0 < total <= u64::MAX ==> said.len() - 1 - n == (if (total - 1) / 3 + 1 < others {
                (total - 1) / 3 + 1
            } else {
                others
            })
            &&& said.last() == speaking::to_all(
                HotStuffMessage::NERequest(NERequest { chain_id, view, tc }),
            )
            &&& after.hs == (HsView { recovery: after.hs.recovery, ..run.hs })
            &&& after.hs.recovery matches RecoveryView::Recovering { tc: kept, collector } && {
                &&& kept == tc
                &&& collector.view == view
                &&& collector.high_tip_qc_view == tip.block_justify.view
                &&& collector.validators == validators
                &&& collector.voters.len() == 0
                &&& collector.signatures.len() == validators.len()
                &&& forall|i: int|
                    0 <= i < validators.len() ==> (#[trigger] collector.signatures[i]) is None
            }
        }),
{
    let view = run.hs.view_info.view;
    let chain_id = run.hs.chain_id;
    let request = ProposalRequest { chain_id, view, tc };
    let validators = tree::validators_of(run.tree).committed;
    let me = run.hs.keypair.public_key();
    let keys = proposing::others(validators, me);
    let asked = proposing::asked(run);
    let order = proposing::shuffled(keys, run.hs.view_info.view.0, keys.len() - 1);
    laws::law_shuffling_keeps_the_keys(keys, view.0, keys.len() - 1);
    let deeds = asked.map_values(
        |key: VerifyingKey|
            Deed::Other(
                Effect::Send(
                    key,
                    HotStuffMessage::ProposalRequest(ProposalRequest { chain_id, view, tc }),
                ),
            ),
    );
    assert forall|i: int| 0 <= i < deeds.len() implies asks_for_timed_out_block(
        #[trigger] deeds[i],
        validators,
        me,
        request,
    ) by {
        let key = asked[i];
        assert(key == order[i]);
        assert(keys.contains(key)) by {
            broadcast use vstd::seq_lib::group_to_multiset_ensures;

            assert(order.contains(key));
            assert(order.to_multiset().contains(key));
            assert(keys.to_multiset().contains(key));
        }
        body_laws::law_others_are_all_but_oneself(validators, me, key);
    }
    lemma_all_said(deeds, validators, me, request);
    speaking::lemma_said_concat(run.done, deeds);
    let requested = state::did(run, deeds);
    lemma_requests_unwritten(run.tree, deeds, validators, me, request);
    let last = speaking::to_all(HotStuffMessage::NERequest(NERequest { chain_id, view, tc }));
    speaking::lemma_spoke(requested, last);
    let before = speaking::said(run.done);
    let said = speaking::said(proposing::recovering(run, tc, tip).done);
    let n = before.len() as int;
    assert(said =~= (before + deeds).push(last));
    assert forall|i: int| n <= i < said.len() - 1 implies asks_for_timed_out_block(
        #[trigger] said[i],
        validators,
        me,
        request,
    ) by {
        assert(said[i] == deeds[i - n]);
    }
    let total = validator_set::power_sum(validators) as int;
    if 0 < total <= u64::MAX {
        assert((validator_set::power_sum(validators) as u128) as u64 == total);
    }
}

proof fn lemma_all_said(
    deeds: Seq<Deed>,
    validators: Seq<(VerifyingKey, Power)>,
    me: VerifyingKey,
    request: ProposalRequest,
)
    requires
        forall|i: int|
            0 <= i < deeds.len() ==> asks_for_timed_out_block(
                #[trigger] deeds[i],
                validators,
                me,
                request,
            ),
    ensures
        speaking::said(deeds) == deeds,
    decreases deeds.len(),
{
    if deeds.len() > 0 {
        let fewer = deeds.drop_last();
        assert forall|i: int| 0 <= i < fewer.len() implies asks_for_timed_out_block(
            #[trigger] fewer[i],
            validators,
            me,
            request,
        ) by {
            assert(fewer[i] == deeds[i]);
        }
        lemma_all_said(fewer, validators, me, request);
        assert(asks_for_timed_out_block(deeds[deeds.len() - 1], validators, me, request));
        assert(speaking::said(deeds) =~= deeds);
    }
}

proof fn lemma_requests_unwritten(
    tree: TreeView,
    deeds: Seq<Deed>,
    validators: Seq<(VerifyingKey, Power)>,
    me: VerifyingKey,
    request: ProposalRequest,
)
    requires
        forall|i: int|
            0 <= i < deeds.len() ==> asks_for_timed_out_block(
                #[trigger] deeds[i],
                validators,
                me,
                request,
            ),
    ensures
        tree::replay(tree, deeds) == tree,
    decreases deeds.len(),
{
    if deeds.len() > 0 {
        let fewer = deeds.drop_last();
        assert forall|i: int| 0 <= i < fewer.len() implies asks_for_timed_out_block(
            #[trigger] fewer[i],
            validators,
            me,
            request,
        ) by {
            assert(fewer[i] == deeds[i]);
        }
        lemma_requests_unwritten(tree, fewer, validators, me, request);
        assert(asks_for_timed_out_block(deeds[deeds.len() - 1], validators, me, request));
    }
}

} // verus!

//! What whole steps of the subprotocol do, from the participant and the tree before to those after.

use vstd::prelude::*;

use crate::app::{ProduceBlockResponse, ValidateBlockResponse};
use crate::block_tree::commit::CommittedBlock;
use crate::block_tree::invariants;
use crate::block_tree::tree;
use crate::block_tree::tree::BlockTreeSingleton;
use crate::block_tree::updates;
use crate::effects::{Deed, Effect};
use crate::events::Event;
use crate::hotstuff::acting;
use crate::hotstuff::certificates;
use crate::hotstuff::entering;
use crate::hotstuff::handlers;
use crate::hotstuff::message_laws;
use crate::hotstuff::messages::{HotStuffMessage, NewView, Nudge, PhaseVote, Proposal};
use crate::hotstuff::proposal_laws;
use crate::hotstuff::proposing;
use crate::hotstuff::proposing::{Occasion, ProductionPlan};
use crate::hotstuff::speaking;
use crate::hotstuff::state;
use crate::hotstuff::state::{HotStuff, HotStuffError, HsView, ProposalStatus, Run};
use crate::hotstuff::types::{Phase, PhaseCertificate};
use crate::hotstuff::view_laws;
use crate::pacemaker::ViewInfo;
use crate::roles::Roles;
use crate::types::block::Block;
use crate::types::data_types::VerifyingKey;
use crate::types::update_sets::AppStateUpdates;
use crate::types::validator_set::ValidatorSetUpdates;

verus! {

proof fn lemma_goes_on_trans(a: Run, b: Run, c: Run)
    requires
        view_laws::goes_on(a, b),
        view_laws::goes_on(b, c),
    ensures
        view_laws::goes_on(a, c),
{
    assert forall|i: int| 0 <= i < a.done.len() implies #[trigger] c.done[i] == a.done[i] by {
        assert(b.done[i] == a.done[i]);
    }
}

proof fn lemma_proposed_goes_on(run: Run, proposal: Proposal, changes_validators: bool)
    ensures
        view_laws::goes_on(run, proposing::proposed(run, proposal, changes_validators)),
{
}

proof fn lemma_made_known_goes_on(run: Run, committed: Seq<CommittedBlock>)
    ensures
        view_laws::goes_on(run, acting::made_known(run, committed)),
{
}

proof fn lemma_handled_inline_goes_on<R: Roles>(
    run: Run,
    roles: R,
    block: Block,
    changes_validators: bool,
    locked: bool,
)
    ensures
        view_laws::goes_on(
            run,
            proposing::handled_inline(run, roles, block, changes_validators, locked),
        ),
{
}

proof fn lemma_led_goes_on<R: Roles>(
    run: Run,
    roles: R,
    block: Block,
    app_state_updates: Option<AppStateUpdates>,
    validator_set_updates: Option<ValidatorSetUpdates>,
    is_retry: bool,
)
    ensures
        view_laws::goes_on(
            run,
            proposing::led(
                run,
                roles,
                block,
                app_state_updates,
                validator_set_updates,
                is_retry,
            ),
        ),
{
    let changes = updates::insertion(run.tree, block, app_state_updates, validator_set_updates);
    let (after, result) = acting::updated(run, roles, changes, block.justify);
    let (stored, committed, missing) = match result {
        Ok(committed) => (after, committed, false),
        Err(e) => (
            state::did(after, seq![Deed::Persist(changes)]),
            Seq::<CommittedBlock>::empty(),
            acting::misses_block(Some(e)),
        ),
    };
    let flagged = state::now_holding(
        stored,
        HsView { sync_needed: stored.hs.sync_needed || (is_retry && missing), ..stored.hs },
    );
    let noted = state::told(flagged, Event::InsertBlock { block });
    assert(view_laws::goes_on(run, noted));
    let proposal = proposing::proposal_for(noted.hs, block, None, None);
    let changes_validators = validator_set_updates is Some;
    if run.hs.defer_feed {
        let announced = proposing::proposed(noted, proposal, changes_validators);
        lemma_proposed_goes_on(noted, proposal, changes_validators);
        let handled = proposing::handled_inline(
            announced,
            roles,
            block,
            changes_validators,
            result is Ok,
        );
        lemma_handled_inline_goes_on(
            announced,
            roles,
            block,
            changes_validators,
            result is Ok,
        );
        let end = acting::made_known(handled, committed);
        lemma_made_known_goes_on(handled, committed);
        lemma_goes_on_trans(run, noted, announced);
        lemma_goes_on_trans(run, announced, handled);
        lemma_goes_on_trans(run, handled, end);
    } else {
        let known = acting::made_known(noted, committed);
        lemma_made_known_goes_on(noted, committed);
        let end = proposing::proposed(known, proposal, changes_validators);
        lemma_proposed_goes_on(known, proposal, changes_validators);
        lemma_goes_on_trans(run, noted, known);
        lemma_goes_on_trans(run, known, end);
    }
}

proof fn lemma_completed_goes_on<R: Roles>(
    run: Run,
    roles: R,
    plan: ProductionPlan,
    response: ProduceBlockResponse,
)
    ensures
        view_laws::goes_on(run, proposing::completed(run, roles, plan, response)),
{
    let block = proposing::planned_block(plan, response);
    match plan.occasion {
        Occasion::Lead => {
            lemma_led_goes_on(
                run,
                roles,
                block,
                response.app_state_updates,
                response.validator_set_updates,
                false,
            );
        },
        Occasion::Retry => {
            lemma_led_goes_on(
                run,
                roles,
                block,
                response.app_state_updates,
                response.validator_set_updates,
                true,
            );
        },
        Occasion::Recovery { tc, nec } => {
            lemma_proposed_goes_on(
                run,
                proposing::proposal_for(run.hs, block, Some(tc), Some(nec)),
                response.validator_set_updates is Some,
            );
        },
    }
}

/// When a replica enters another view, the first thing that its journal gains is a message to the
/// first of the next leaders that the roles name, and the second, if they name two, the same message
/// to the other: a new-view message for its chain with the view that it leaves and the highest
/// certificate of its tree. This is so whatever the replica does in the new view.
pub proof fn law_entering_a_view_first_tells_the_next_leaders<R: Roles>(
    hs: HotStuff,
    tree: BlockTreeSingleton,
    hs_after: HotStuff,
    tree_after: BlockTreeSingleton,
    roles: R,
    view_info: ViewInfo,
    result: Result<(), HotStuffError>,
)
    requires
        entering::view_entered(hs, tree, hs_after, tree_after, roles, view_info, result),
        view_info.view != hs@.view_info.view,
    ensures
        ({
            let new_view = NewView {
                chain_id: hs@.chain_id,
                view: hs@.view_info.view,
                highest_pc: tree@.highest_pc->0,
            };
            let (first, second) = roles.next_leaders(
                new_view,
                tree::validators_of(tree@),
                tree::reputation_of(tree@).0,
            );
            let before = tree.deeds();
            let after = tree_after.deeds();
            let n = before.len() as int;
            &&& n < after.len()
            &&& before == after.take(n)
            &&& after[n] == Deed::Other(Effect::Send(first, HotStuffMessage::NewView(new_view)))
            &&& second matches Some(second) ==> n + 1 < after.len() && after[n + 1]
                == Deed::Other(Effect::Send(second, HotStuffMessage::NewView(new_view)))
        }),
{
    let start = state::begin(hs, tree);
    view_laws::law_next_leaders_hear_of_the_highest_certificate(start, roles, view_info);
    let (run, plan) = proposing::entered(start, roles, view_info);
    let before = tree.deeds();
    let after = tree_after.deeds();
    let n = before.len() as int;
    let end = if plan is Ok && plan->Ok_0 is Some {
        let response = choose|response: ProduceBlockResponse|
            state::reached(
                tree,
                hs_after,
                tree_after,
                #[trigger] proposing::completed(run, roles, plan->Ok_0->0, response),
            );
        lemma_completed_goes_on(run, roles, plan->Ok_0->0, response);
        proposing::completed(run, roles, plan->Ok_0->0, response)
    } else {
        run
    };
    assert(view_laws::goes_on(run, end));
    assert(after == before + end.done);
    assert(after.take(n) =~= before);
    assert(end.done[0] == run.done[0]);
    assert(after[n] == end.done[0]);
    if run.done.len() > 1 {
        assert(end.done[1] == run.done[1]);
        assert(after[n + 1] == end.done[1]);
    }
}

/// What a step says comes behind what was said before.
proof fn lemma_said_behind(
    start: BlockTreeSingleton,
    hs: HotStuff,
    tree: BlockTreeSingleton,
    run: Run,
)
    requires
        state::reached(start, hs, tree, run),
    ensures
        speaking::said(tree.deeds()) == speaking::said(start.deeds()) + speaking::said(run.done),
{
    speaking::lemma_said_concat(start.deeds(), run.done);
}

/// A proposal, a header or a nudge that does not come from a leader of its view is not looked at: it
/// changes neither the participant nor the tree, and nothing is said. The same goes for a proposal or
/// a nudge of a leader that was heard in the view already.
pub proof fn law_only_leaders_are_listened_to<R: Roles>(
    hs: HotStuff,
    tree: BlockTreeSingleton,
    hs_after: HotStuff,
    tree_after: BlockTreeSingleton,
    roles: R,
    message: HotStuffMessage,
    origin: VerifyingKey,
    now: u64,
    r: Result<(), HotStuffError>,
)
    requires
        handlers::message_received(
            hs,
            tree,
            hs_after,
            tree_after,
            roles,
            message,
            origin,
            now,
            r,
        ),
        ({
            let validators = tree::validators_of(tree@);
            let records = tree::reputation_of(tree@).0;
            match message {
                HotStuffMessage::ProposalHeader(header) => !roles.proposes(
                    origin,
                    header.view,
                    validators,
                    records,
                ),
                HotStuffMessage::Proposal(_) | HotStuffMessage::Nudge(_) => !roles.proposes(
                    origin,
                    hs@.view_info.view,
                    validators,
                    records,
                ) || hs@.status is AllLeadersProposed || hs@.status
                    == (ProposalStatus::OneLeaderProposed { leader: origin }),
                _ => false,
            }
        }),
    ensures
        r is Ok,
        hs_after@ == hs@,
        tree_after@ == tree@,
        tree_after.deeds() == tree.deeds(),
{
    reveal(handlers::message_received);
    assert(tree.deeds() + Seq::<Deed>::empty() =~= tree.deeds());
}

/// After a new-view message whose certificate is correct and safe, the tree's highest certificate is
/// at least as new as that certificate, unless the tree fails to act on it. Nothing is said.
pub proof fn law_new_view_messages_bring_the_highest_certificate<R: Roles>(
    hs: HotStuff,
    tree: BlockTreeSingleton,
    hs_after: HotStuff,
    tree_after: BlockTreeSingleton,
    roles: R,
    new_view: NewView,
    origin: VerifyingKey,
    now: u64,
    r: Result<(), HotStuffError>,
)
    requires
        tree::initialized(tree@),
        handlers::message_received(
            hs,
            tree,
            hs_after,
            tree_after,
            roles,
            HotStuffMessage::NewView(new_view),
            origin,
            now,
            r,
        ),
        certificates::pc_correct(tree@, new_view.highest_pc),
        invariants::pc_safe(tree@, new_view.highest_pc, hs@.chain_id),
        updates::update_outcome(tree@, new_view.highest_pc, roles, tree.retention) is Ok,
    ensures
        (tree_after@.highest_pc->0).view.0 >= new_view.highest_pc.view.0,
        (tree_after@.highest_pc->0).view.0 >= (tree@.highest_pc->0).view.0,
        speaking::said(tree_after.deeds()) == speaking::said(tree.deeds()),
{
    reveal(handlers::message_received);
    let run = state::begin(hs, tree);
    message_laws::law_new_views_bring_the_highest_certificate(run, roles, new_view, origin);
    let after = handlers::new_view_received(run, roles, new_view, origin);
    lemma_said_behind(tree, hs_after, tree_after, after);
    assert(speaking::said(Seq::<Deed>::empty()) =~= Seq::<Deed>::empty());
    assert(speaking::said(tree.deeds()) + Seq::<Deed>::empty() =~= speaking::said(tree.deeds()));
}

/// A correct and safe nudge of a leader that is listened to is answered, by a replica that has a vote
/// and has not used it in its view, with exactly one message: its vote for the phase right after that
/// of the nudge's certificate.
pub proof fn law_nudge_messages_are_answered_with_the_next_phase<R: Roles>(
    hs: HotStuff,
    tree: BlockTreeSingleton,
    hs_after: HotStuff,
    tree_after: BlockTreeSingleton,
    roles: R,
    nudge: Nudge,
    origin: VerifyingKey,
    now: u64,
    r: Result<(), HotStuffError>,
)
    requires
        tree::initialized(tree@),
        handlers::message_received(
            hs,
            tree,
            hs_after,
            tree_after,
            roles,
            HotStuffMessage::Nudge(nudge),
            origin,
            now,
            r,
        ),
        roles.proposes(
            origin,
            hs@.view_info.view,
            tree::validators_of(tree@),
            tree::reputation_of(tree@).0,
        ),
        hs@.status is WaitingForProposal,
        certificates::pc_correct(tree@, nudge.justify),
        invariants::nudge_safe(tree@, nudge, hs@.view_info.view, hs@.chain_id),
        roles.votes(
            hs@.keypair.public_key(),
            tree::validators_of(tree_after@),
            nudge.justify,
        ),
        tree@.highest_view_phase_voted is Some ==> (tree@.highest_view_phase_voted->0).0
            < hs@.view_info.view.0,
    ensures
        tree_after@.highest_view_phase_voted == Some(hs@.view_info.view),
        exists|vote: PhaseVote, to: VerifyingKey|
            {
                &&& speaking::said(tree_after.deeds()) == speaking::said(tree.deeds()).push(
                    #[trigger] speaking::to_peer(to, HotStuffMessage::PhaseVote(vote)),
                )
                &&& vote.view == hs@.view_info.view
                &&& vote.chain_id == hs@.chain_id
                &&& vote.block == nudge.justify.block
                &&& nudge.justify.phase == Phase::Prepare ==> vote.phase == Phase::Precommit
                &&& nudge.justify.phase == Phase::Precommit ==> vote.phase == Phase::Commit
                &&& nudge.justify.phase == Phase::Commit ==> vote.phase == Phase::Decide
            },
{
    reveal(handlers::message_received);
    let run = state::begin(hs, tree);
    message_laws::law_nudges_are_answered_with_the_next_phase(run, roles, nudge, origin);
    let after = handlers::nudge_received(run, roles, nudge, origin);
    lemma_said_behind(tree, hs_after, tree_after, after);
    assert(speaking::said(Seq::<Deed>::empty()) =~= Seq::<Deed>::empty());
    let validators = tree::validators_of(after.tree);
    let records = tree::reputation_of(after.tree).0;
    let vote = choose|vote: PhaseVote|
        {
            &&& speaking::said(after.done) == speaking::said(run.done).push(
                speaking::to_peer(
                    roles.vote_recipient(vote, validators, records),
                    HotStuffMessage::PhaseVote(vote),
                ),
            )
            &&& #[trigger] message_laws::is_vote_for_next_phase(run, vote, nudge.justify)
        };
    let to = roles.vote_recipient(vote, validators, records);
    assert(nudge.justify.justifies_nudge());
    assert(speaking::said(tree_after.deeds()) =~= speaking::said(tree.deeds()).push(
        speaking::to_peer(to, HotStuffMessage::PhaseVote(vote)),
    ));
}

/// Whatever a proposal leads to, all that it makes a replica say is at most one vote of its own, for
/// the proposed block in the view that it is in, in the prepare or the generic phase; and it votes
/// only if the block may be taken and it has not voted in its view.
pub proof fn law_proposal_messages_lead_to_at_most_one_vote<R: Roles>(
    hs: HotStuff,
    tree: BlockTreeSingleton,
    hs_after: HotStuff,
    tree_after: BlockTreeSingleton,
    roles: R,
    proposal: Proposal,
    origin: VerifyingKey,
    now: u64,
    r: Result<(), HotStuffError>,
)
    requires
        tree::initialized(tree@),
        handlers::message_received(
            hs,
            tree,
            hs_after,
            tree_after,
            roles,
            HotStuffMessage::Proposal(proposal),
            origin,
            now,
            r,
        ),
    ensures
        speaking::said(tree_after.deeds()) == speaking::said(tree.deeds()) || exists|
            vote: PhaseVote,
            to: VerifyingKey,
        |
            {
                &&& speaking::said(tree_after.deeds()) == speaking::said(tree.deeds()).push(
                    #[trigger] speaking::to_peer(to, HotStuffMessage::PhaseVote(vote)),
                )
                &&& vote.chain_id == hs@.chain_id
                &&& vote.view == hs@.view_info.view
                &&& vote.block == proposal.block.hash
                &&& vote.phase == Phase::Prepare || vote.phase == Phase::Generic
                &&& proposal_laws::may_be_taken(state::begin(hs, tree), proposal.block)
                &&& speaking::vote_is_unused(state::begin(hs, tree))
                &&& tree_after@.highest_view_phase_voted == Some(hs@.view_info.view)
            },
{
    reveal(handlers::message_received);
    let start = state::begin(hs, tree);
    let none = Seq::<Deed>::empty();
    assert(speaking::said(none) =~= none);
    assert(speaking::said(tree.deeds()) + none =~= speaking::said(tree.deeds()));
    if handlers::admitted(start, roles, HotStuffMessage::Proposal(proposal), origin) {
        proposal_laws::law_only_safe_proposals_are_considered(start, roles, proposal, origin);
        let (run, goes_on) = handlers::proposal_screened(start, roles, proposal, origin);
        if goes_on {
            let response = choose|response: ValidateBlockResponse|
                state::reached(
                    tree,
                    hs_after,
                    tree_after,
                    #[trigger] handlers::proposal_settled(run, roles, proposal, origin, response),
                );
            let end = handlers::proposal_settled(run, roles, proposal, origin, response);
            lemma_said_behind(tree, hs_after, tree_after, end);
            lemma_screened_keeps(start, roles, proposal, origin);
            match response {
                ValidateBlockResponse::Valid { app_state_updates, validator_set_updates } => {
                    proposal_laws::law_valid_proposals_are_voted_for(
                        run,
                        roles,
                        proposal,
                        origin,
                        app_state_updates,
                        validator_set_updates,
                    );
                    let validators = tree::validators_of(end.tree);
                    let records = tree::reputation_of(end.tree).0;
                    if speaking::said(end.done) != speaking::said(run.done) {
                        let vote = choose|vote: PhaseVote|
                            {
                                &&& speaking::said(end.done) == speaking::said(run.done).push(
                                    speaking::to_peer(
                                        roles.vote_recipient(vote, validators, records),
                                        HotStuffMessage::PhaseVote(vote),
                                    ),
                                )
                                &&& #[trigger] proposal_laws::is_first_vote(
                                    run,
                                    vote,
                                    proposal.block.hash,
                                    validator_set_updates is Some,
                                )
                            };
                        let to = roles.vote_recipient(vote, validators, records);
                        assert(speaking::said(tree_after.deeds()) =~= speaking::said(
                            tree.deeds(),
                        ).push(speaking::to_peer(to, HotStuffMessage::PhaseVote(vote))));
                    }
                },
                _ => {
                    proposal_laws::law_other_proposals_are_not_voted_for(
                        run,
                        roles,
                        proposal,
                        origin,
                        response,
                    );
                },
            }
        } else {
            lemma_said_behind(tree, hs_after, tree_after, run);
            lemma_refused_says_nothing(start, roles, proposal, origin);
        }
    } else {
        assert(tree.deeds() + none =~= tree.deeds());
    }
}

/// Looking at a proposal leaves the participant's view, keys and chain.
proof fn lemma_screened_keeps<R: Roles>(
    run: Run,
    roles: R,
    proposal: Proposal,
    origin: VerifyingKey,
)
    ensures
        ({
            let after = handlers::proposal_screened(run, roles, proposal, origin).0;
            &&& after.hs.view_info == run.hs.view_info
            &&& after.hs.keypair == run.hs.keypair
            &&& after.hs.chain_id == run.hs.chain_id
        }),
{
}

/// A proposal that is not put before the application makes the replica say nothing.
proof fn lemma_refused_says_nothing<R: Roles>(
    run: Run,
    roles: R,
    proposal: Proposal,
    origin: VerifyingKey,
)
    requires
        !handlers::proposal_screened(run, roles, proposal, origin).1,
    ensures
        speaking::said(handlers::proposal_screened(run, roles, proposal, origin).0.done)
            == speaking::said(run.done),
{
    let event = Event::ReceiveProposal { origin, proposal };
    speaking::lemma_told(run, event);
    let received = state::told(run, event);
    let hash = proposal.block.hash;
    let evidence = crate::hotstuff::headers::evidence_against(
        received.hs,
        proposal.view,
        origin,
        hash,
    );
    proposal_laws::lemma_caught(received, evidence);
    proposal_laws::lemma_rolled_back(
        crate::hotstuff::headers::caught(received, evidence),
        hash,
        evidence,
    );
}

/// A certificate that a vote completes is for the chain, view, block and phase that were voted for. If
/// it is correct and safe, the tree's highest certificate is then at least as new as it.
pub proof fn law_votes_bring_the_highest_certificate<R: Roles>(
    hs: HotStuff,
    tree: BlockTreeSingleton,
    hs_after: HotStuff,
    tree_after: BlockTreeSingleton,
    roles: R,
    vote: PhaseVote,
    signer: VerifyingKey,
)
    requires
        tree::initialized(tree@),
        handlers::vote_received(hs, tree, hs_after, tree_after, roles, vote, signer),
    ensures
        match handlers::vote_counted(state::begin(hs, tree), vote, signer).1 {
            Some(signatures) => exists|pc: PhaseCertificate|
                {
                    &&& #[trigger] handlers::certifies(pc, vote, signatures)
                    &&& pc.chain_id == vote.chain_id && pc.view == vote.view && pc.block
                        == vote.block && pc.phase == vote.phase && pc.signatures@ == signatures
                    &&& certificates::pc_correct(tree@, pc) && invariants::pc_safe(
                        tree@,
                        pc,
                        hs@.chain_id,
                    ) ==> (tree_after@.highest_pc->0).view.0 >= pc.view.0
                    &&& !certificates::pc_correct(tree@, pc) ==> tree_after@ == tree@
                },
            None => tree_after@ == tree@ && speaking::said(tree_after.deeds()) == speaking::said(
                tree.deeds(),
            ),
        },
{
    let start = state::begin(hs, tree);
    let event = Event::ReceivePhaseVote { origin: signer, phase_vote: vote };
    speaking::lemma_told(start, event);
    let (run, signatures) = handlers::vote_counted(start, vote, signer);
    assert(run.tree == tree@ && run.hs.chain_id == hs@.chain_id);
    match signatures {
        Some(signatures) => {
            let pc = choose|pc: PhaseCertificate| #[trigger]
                handlers::certifies(pc, vote, signatures) && state::reached(
                    tree,
                    hs_after,
                    tree_after,
                    handlers::certificate_collected(run, roles, pc),
                );
            if certificates::pc_correct(tree@, pc) && invariants::pc_safe(
                tree@,
                pc,
                hs@.chain_id,
            ) {
                message_laws::law_collected_certificates_move_the_replica_on(run, roles, pc);
            }
            if !certificates::pc_correct(tree@, pc) {
                crate::hotstuff::order_laws::law_unsafe_certificates_are_not_acted_on(
                    run,
                    roles,
                    pc,
                );
            }
            assert(handlers::certifies(pc, vote, signatures));
        },
        None => {
            lemma_said_behind(tree, hs_after, tree_after, run);
            let none = Seq::<Deed>::empty();
            assert(speaking::said(none) =~= none);
            assert(speaking::said(tree.deeds()) + none =~= speaking::said(tree.deeds()));
        },
    }
}

/// Completing a planned block leaves the view that the participant is in.
proof fn lemma_completed_keeps_the_view<R: Roles>(
    run: Run,
    roles: R,
    plan: ProductionPlan,
    response: ProduceBlockResponse,
)
    ensures
        proposing::completed(run, roles, plan, response).hs.view_info == run.hs.view_info,
{
}

/// A leader at work stays in its view.
proof fn lemma_took_lead_keeps_the_view(run: Run)
    ensures
        proposing::took_lead(run).0.hs.view_info == run.hs.view_info,
{
}

/// After entering a view a replica is in that view, whatever it did there.
pub proof fn law_entered_views_are_current<R: Roles>(
    hs: HotStuff,
    tree: BlockTreeSingleton,
    hs_after: HotStuff,
    tree_after: BlockTreeSingleton,
    roles: R,
    view_info: ViewInfo,
    result: Result<(), HotStuffError>,
)
    requires
        entering::view_entered(hs, tree, hs_after, tree_after, roles, view_info, result),
    ensures
        hs_after@.view_info.view == view_info.view,
        view_info.view != hs@.view_info.view ==> hs_after@.view_info == view_info,
{
    let start = state::begin(hs, tree);
    let (run, plan) = proposing::entered(start, roles, view_info);
    let moved = proposing::moved_on(proposing::left_view(start, roles), view_info);
    lemma_took_lead_keeps_the_view(moved);
    assert(run.hs.view_info.view == view_info.view);
    if plan is Ok && plan->Ok_0 is Some {
        let response = choose|response: ProduceBlockResponse|
            state::reached(
                tree,
                hs_after,
                tree_after,
                #[trigger] proposing::completed(run, roles, plan->Ok_0->0, response),
            );
        lemma_completed_keeps_the_view(run, roles, plan->Ok_0->0, response);
    }
}

} // verus!

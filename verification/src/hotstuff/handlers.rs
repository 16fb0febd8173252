//! What a participant does when a message arrives.

use vstd::prelude::*;

use crate::app::{App, ProduceBlockResponse, ValidateBlockResponse};
use crate::block_tree::errors::BlockTreeError;
use crate::block_tree::invariants;
use crate::block_tree::invariants::{
    safe_block, safe_nudge, safe_pc, safe_pc_lock_clause,
};
use crate::block_tree::speculation;
use crate::block_tree::store;
use crate::block_tree::store::TreeView;
use crate::block_tree::tree;
use crate::block_tree::tree::BlockTreeSingleton;
use crate::block_tree::variables;
use crate::block_tree::write_batch::WriteOp;
use crate::codec;
use crate::effects::{Deed, Effect};
use crate::events::Event;
use crate::hotstuff::acting;
use crate::hotstuff::bodies;
use crate::hotstuff::certificates;
use crate::hotstuff::certificates::valid_nec;
use crate::hotstuff::collectors;
use crate::hotstuff::headers;
use crate::hotstuff::messages::{
    HotStuffMessage, NEMessage, NERequest, NewView, Nudge, PhaseVote, Proposal, ProposalRequest,
    ProposalResponse,
};
use crate::hotstuff::proposing;
use crate::hotstuff::proposing::{Occasion, ProductionPlan};
use crate::hotstuff::state;
use crate::hotstuff::state::{HotStuff, HotStuffError, HsView, RecoveryState, RecoveryView, Run};
use crate::hotstuff::types::{NoEndorsementCertificate, Phase, PhaseCertificate};
use crate::hotstuff::voting;
use crate::pacemaker::{TimeoutCertificate, TipInfo};
use crate::roles::Roles;
use crate::types::data_types::{SignatureBytes, VerifyingKey, ViewNumber};
use crate::types::validator_set;
use crate::types::validator_set::ValidatorSetUpdatesStatus;

verus! {

/// A leader heard.
pub open spec fn leader_heard(run: Run, leader: VerifyingKey) -> Run {
    state::now_holding(run, HsView { status: state::heard(run.hs.status, leader), ..run.hs })
}

/// Whether a proposal that proposes a block again rests on a timeout of the previous view whose
/// high tip is that block.
pub open spec fn reproposal_valid<R: Roles>(run: Run, roles: R, proposal: Proposal) -> bool {
    match proposal.tc {
        Some(tc) => {
            &&& roles.accepts_timeout(tc, tree::validators_of(run.tree))
            &&& run.hs.view_info.view.0 == tc.view.0 + 1
            &&& match tc.high_tip {
                Some(tip) => tip.block_hash == proposal.block.hash,
                None => false,
            }
        },
        None => false,
    }
}

/// Whether what a proposal rests on, apart from its block, is in order.
pub open spec fn grounds_valid<R: Roles>(run: Run, roles: R, proposal: Proposal) -> bool {
    match proposal.nec {
        Some(nec) => certificates::nec_valid(run.tree, nec),
        None => proposal.reproposes() ==> reproposal_valid(run, roles, proposal),
    }
}

/// A proposal looked at: where that leads, and whether its block is put before the application.
pub open spec fn proposal_screened<R: Roles>(
    run: Run,
    roles: R,
    proposal: Proposal,
    origin: VerifyingKey,
) -> (Run, bool) {
    let block = proposal.block;
    let received = state::told(run, Event::ReceiveProposal { origin, proposal });
    if headers::equivocates(received.hs, proposal.view, origin, block.hash) {
        let evidence = headers::evidence_against(received.hs, proposal.view, origin, block.hash);
        (headers::rolled_back(headers::caught(received, evidence), block.hash, evidence), false)
    } else {
        let seen = headers::noted(received, proposal.view, origin, block.hash);
        if !grounds_valid(seen, roles, proposal) {
            (leader_heard(seen, origin), false)
        } else if !(invariants::block_correct(seen.tree, block) && invariants::block_safe(
            seen.tree,
            block,
            seen.hs.chain_id,
        )) {
            let flagged = state::now_holding(
                seen,
                HsView {
                    sync_needed: seen.hs.sync_needed || !seen.tree.blocks.contains_key(
                        block.justify.block,
                    ),
                    ..seen.hs
                },
            );
            (leader_heard(flagged, origin), false)
        } else {
            (seen, true)
        }
    }
}

/// The tip that a vote for a proposal leaves the replica with.
pub open spec fn tip_after(hs: HsView, proposal: Proposal, phase: Phase) -> Option<TipInfo> {
    if proposal.reproposes() {
        (proposal.tc->0).high_tip
    } else if phase == Phase::Generic {
        Some(
            TipInfo {
                block_hash: proposal.block.hash,
                block_height: proposal.block.height,
                block_justify: proposal.block.justify,
                block_data_hash: proposal.block.data_hash,
                view: hs.view_info.view,
            },
        )
    } else {
        None
    }
}

/// What follows the application's verdict on a proposed block: a valid block is taken in and voted
/// for.
pub open spec fn proposal_settled<R: Roles>(
    run: Run,
    roles: R,
    proposal: Proposal,
    origin: VerifyingKey,
    response: ValidateBlockResponse,
) -> Run {
    let block = proposal.block;
    match response {
        ValidateBlockResponse::Valid { app_state_updates, validator_set_updates } => {
            let after = acting::taken_in(run, roles, block, app_state_updates, validator_set_updates).0;
            let phase = proposing::first_phase(validator_set_updates is Some);
            if voting::may_vote(after, roles, block.justify) {
                leader_heard(
                    voting::voted(after, roles, block.hash, phase, tip_after(after.hs, proposal, phase)),
                    origin,
                )
            } else {
                leader_heard(after, origin)
            }
        },
        _ => leader_heard(run, origin),
    }
}

/// What the arrival of a proposal does.
pub open spec fn proposal_received<R: Roles>(
    hs: HotStuff,
    tree: BlockTreeSingleton,
    hs_after: HotStuff,
    tree_after: BlockTreeSingleton,
    roles: R,
    proposal: Proposal,
    origin: VerifyingKey,
) -> bool {
    let (run, goes_on) = proposal_screened(state::begin(hs, tree), roles, proposal, origin);
    if goes_on {
        exists|response: ValidateBlockResponse|
            state::reached(
                tree,
                hs_after,
                tree_after,
                #[trigger] proposal_settled(run, roles, proposal, origin, response),
            )
    } else {
        state::reached(tree, hs_after, tree_after, run)
    }
}

/// The phase that a nudge asks to vote for.
pub open spec fn next_phase(phase: Phase) -> Phase {
    match phase {
        Phase::Prepare => Phase::Precommit,
        Phase::Precommit => Phase::Commit,
        _ => Phase::Decide,
    }
}

/// The tip that a nudge leaves the replica with, if the tree holds the block.
pub open spec fn tip_nudged(run: Run, justify: PhaseCertificate) -> Run {
    if run.tree.blocks.contains_key(justify.block) {
        let block = run.tree.blocks[justify.block];
        state::did(
            run,
            variables::written(
                WriteOp::SetLocalTip(
                    TipInfo {
                        block_hash: block.hash,
                        block_height: block.height,
                        block_justify: justify,
                        block_data_hash: block.data_hash,
                        view: run.hs.view_info.view,
                    },
                ),
            ),
        )
    } else {
        run
    }
}

/// What the arrival of a nudge does: if it is safe, the tree acts on its certificate, and the
/// replica votes for the next phase.
pub open spec fn nudge_received<R: Roles>(
    run: Run,
    roles: R,
    nudge: Nudge,
    origin: VerifyingKey,
) -> Run {
    let received = state::told(run, Event::ReceiveNudge { origin, nudge });
    if !(certificates::pc_correct(received.tree, nudge.justify) && invariants::nudge_safe(
        received.tree,
        nudge,
        received.hs.view_info.view,
        received.hs.chain_id,
    )) {
        leader_heard(received, origin)
    } else {
        let after = tip_nudged(
            acting::refreshed(acting::acted(received, roles, nudge.justify).0),
            nudge.justify,
        );
        if voting::may_vote(after, roles, nudge.justify) {
            leader_heard(
                voting::phase_voted(after, roles, nudge.justify.block, next_phase(nudge.justify.phase)),
                origin,
            )
        } else {
            leader_heard(after, origin)
        }
    }
}

/// Whether a certificate that the replica collected may be acted on. Where its block is still on
/// its way, it need not be in the tree; the lock rule holds all the same.
pub open spec fn collected_safe(run: Run, pc: PhaseCertificate) -> bool {
    &&& certificates::pc_correct(run.tree, pc)
    &&& if headers::is_pending(run.hs, pc.block) {
        invariants::lock_clause(run.tree, pc)
    } else {
        invariants::pc_safe(run.tree, pc, run.hs.chain_id)
    }
}

/// Whether a certificate commits its block speculatively: its block was proposed on top of the
/// certificate of the view before.
pub open spec fn commits_speculatively(tree: TreeView, pc: PhaseCertificate) -> bool {
    &&& pc.phase == Phase::Generic
    &&& tree.blocks.contains_key(pc.block)
    &&& tree.blocks[pc.block].justify.view.0 + 1 == pc.view.0
}

/// What a certificate that the replica collected does.
pub open spec fn certificate_collected<R: Roles>(run: Run, roles: R, pc: PhaseCertificate) -> Run {
    let announced = state::told(run, Event::CollectPC { phase_certificate: pc });
    if !collected_safe(announced, pc) {
        announced
    } else {
        let highest = state::did(announced, variables::remote_pc_deeds(announced.tree, pc));
        let updated = acting::acted(highest, roles, pc).0;
        let speculated = if commits_speculatively(updated.tree, pc) {
            state::did(updated, speculation::speculate(updated.tree, pc.block))
        } else {
            updated
        };
        let fresh = acting::refreshed(speculated);
        if pc.phase == Phase::Generic {
            state::did(fresh, seq![Deed::Other(Effect::BroadcastAdvanceView(pc))])
        } else {
            fresh
        }
    }
}

/// The certificate that votes like `vote` make with `signatures`.
pub open spec fn certifies(
    pc: PhaseCertificate,
    vote: PhaseVote,
    signatures: Seq<Option<SignatureBytes>>,
) -> bool {
    &&& pc.chain_id == vote.chain_id
    &&& pc.view == vote.view
    &&& pc.block == vote.block
    &&& pc.phase == vote.phase
    &&& pc.signatures@ == signatures
}

/// A vote counted: where that leads, and the signatures if they now make a certificate.
pub open spec fn vote_counted(run: Run, vote: PhaseVote, signer: VerifyingKey) -> (
    Run,
    Option<Seq<Option<SignatureBytes>>>,
) {
    let received = state::told(run, Event::ReceivePhaseVote { origin: signer, phase_vote: vote });
    if vote.signed_by(signer) {
        let (collectors, signatures) = collectors::pair_collected(received.hs.collectors, signer, vote);
        (state::now_holding(received, HsView { collectors, ..received.hs }), signatures)
    } else {
        (received, None)
    }
}

/// What the arrival of a vote does.
pub open spec fn vote_received<R: Roles>(
    hs: HotStuff,
    tree: BlockTreeSingleton,
    hs_after: HotStuff,
    tree_after: BlockTreeSingleton,
    roles: R,
    vote: PhaseVote,
    signer: VerifyingKey,
) -> bool {
    let (run, signatures) = vote_counted(state::begin(hs, tree), vote, signer);
    match signatures {
        Some(signatures) => exists|pc: PhaseCertificate| #[trigger]
            certifies(pc, vote, signatures) && state::reached(
                tree,
                hs_after,
                tree_after,
                certificate_collected(run, roles, pc),
            ),
        None => state::reached(tree, hs_after, tree_after, run),
    }
}

/// What the arrival of a new-view message does: if its certificate is safe, the tree acts on it.
pub open spec fn new_view_received<R: Roles>(
    run: Run,
    roles: R,
    new_view: NewView,
    origin: VerifyingKey,
) -> Run {
    let received = state::told(run, Event::ReceiveNewView { origin, new_view });
    let pc = new_view.highest_pc;
    if certificates::pc_correct(received.tree, pc) && invariants::pc_safe(
        received.tree,
        pc,
        received.hs.chain_id,
    ) {
        acting::refreshed(acting::acted(received, roles, pc).0)
    } else {
        received
    }
}

/// What a request for the block of a timed-out view does: the block is sent if the tree holds it.
pub open spec fn proposal_requested(
    run: Run,
    request: ProposalRequest,
    origin: VerifyingKey,
) -> Run {
    match request.tc.high_tip {
        Some(tip) => if request.view == run.hs.view_info.view && run.tree.blocks.contains_key(
            tip.block_hash,
        ) {
            let proposal = Proposal {
                chain_id: request.chain_id,
                view: request.view,
                block: run.tree.blocks[tip.block_hash],
                tc: Some(request.tc),
                nec: None,
            };
            state::did(
                run,
                voting::sent(
                    origin,
                    HotStuffMessage::ProposalResponse(
                        ProposalResponse {
                            chain_id: request.chain_id,
                            view: request.view,
                            proposal,
                        },
                    ),
                ),
            )
        } else {
            run
        },
        None => run,
    }
}

/// What the block of a timed-out view does when it arrives: if it is what the leader is looking
/// for, and safe, the leader proposes it again.
pub open spec fn proposal_recovered(run: Run, response: ProposalResponse) -> Run {
    let block = response.proposal.block;
    match run.hs.recovery {
        RecoveryView::Recovering { tc, collector } => match tc.high_tip {
            Some(tip) => if response.view == run.hs.view_info.view && block.hash == tip.block_hash
                && invariants::block_correct(run.tree, block) && invariants::block_safe(
                run.tree,
                block,
                run.hs.chain_id,
            ) {
                let idle = state::now_holding(run, HsView { recovery: RecoveryView::Idle, ..run.hs });
                proposing::proposed(
                    idle,
                    proposing::proposal_for(idle.hs, block, Some(tc), None),
                    proposing::changes_validators(idle.tree, block.hash),
                )
            } else {
                run
            },
            None => run,
        },
        RecoveryView::Idle => run,
    }
}

/// The no-endorsement of a participant.
pub open spec fn ne_of(hs: HsView, view: ViewNumber, high_tip_qc_view: ViewNumber) -> NEMessage {
    NEMessage {
        chain_id: hs.chain_id,
        view,
        high_tip_qc_view,
        signature: hs.keypair.signature_of(codec::ne_message(view, high_tip_qc_view)),
    }
}

/// What a request for a no-endorsement does: a replica that did not vote for the block of the
/// timed-out view sends one to the leader, once in a view.
pub open spec fn ne_requested<R: Roles>(run: Run, roles: R, request: NERequest) -> Run {
    match request.tc.high_tip {
        Some(tip) => if request.view == run.hs.view_info.view
            && !run.hs.ne_sent_views.contains(request.view) && run.tree.last_voted_proposal != Some(
            (request.tc.view, tip.block_hash),
        ) {
            let leader = roles.leader(
                request.view,
                tree::validators_of(run.tree).committed,
                tree::reputation_of(run.tree).0,
            );
            let ne = ne_of(run.hs, request.view, tip.block_justify.view);
            state::now_holding(
                state::did(run, voting::sent(leader, HotStuffMessage::NE(ne))),
                HsView {
                    ne_sent_views: run.hs.ne_sent_views.push(request.view),
                    ..run.hs
                },
            )
        } else {
            run
        },
        None => run,
    }
}

/// Whether a no-endorsement is one that a leader is collecting.
pub open spec fn ne_is_collected(hs: HsView, ne: NEMessage) -> bool {
    ne.view == hs.view_info.view && hs.recovery is Recovering
}

/// A no-endorsement collected.
pub open spec fn ne_gathered(run: Run, ne: NEMessage, origin: VerifyingKey) -> Run {
    match run.hs.recovery {
        RecoveryView::Recovering { tc, collector } => state::now_holding(
            run,
            HsView {
                recovery: RecoveryView::Recovering {
                    tc,
                    collector: collectors::ne_collected(
                        collector,
                        origin,
                        ne.view,
                        ne.high_tip_qc_view,
                        ne.signature,
                    ),
                },
                ..run.hs
            },
        ),
        RecoveryView::Idle => run,
    }
}

/// Whether a no-endorsement completes a quorum.
pub open spec fn ne_completes(run: Run, ne: NEMessage, origin: VerifyingKey) -> bool {
    match run.hs.recovery {
        RecoveryView::Recovering { tc, collector } => {
            let after = collectors::ne_collected(
                collector,
                origin,
                ne.view,
                ne.high_tip_qc_view,
                ne.signature,
            );
            &&& collectors::ne_counts(collector, origin, ne.view, ne.high_tip_qc_view, ne.signature)
            &&& certificates::signed_power(after.signatures, after.validators) >= validator_set::quorum_power(
                validator_set::power_sum(after.validators),
            )
        },
        RecoveryView::Idle => false,
    }
}

/// The certificate that a quorum of no-endorsements makes.
pub open spec fn ne_certifies(
    nec: NoEndorsementCertificate,
    run: Run,
    ne: NEMessage,
    origin: VerifyingKey,
) -> bool {
    &&& nec.view == ne.view
    &&& nec.high_tip_qc_view == ne.high_tip_qc_view
    &&& nec.signatures@ == (ne_gathered(run, ne, origin).hs.recovery->collector).signatures
}

/// A leader that may pass over the block of a timed-out view: it plans a block next to it.
pub open spec fn passed_over(run: Run, tc: TimeoutCertificate, nec: NoEndorsementCertificate) -> (
    Run,
    Result<Option<ProductionPlan>, BlockTreeError>,
) {
    let idle = state::now_holding(run, HsView { recovery: RecoveryView::Idle, ..run.hs });
    match tc.high_tip {
        Some(tip) => match proposing::place_above(idle.tree, tip.block_justify) {
            Some((parent, height)) => (
                idle,
                Ok(
                    Some(
                        ProductionPlan {
                            occasion: Occasion::Recovery { tc, nec },
                            parent,
                            height,
                            justify: tip.block_justify,
                        },
                    ),
                ),
            ),
            None => (
                idle,
                Err(BlockTreeError::BlockExpectedButNotFound { block: tip.block_justify.block }),
            ),
        },
        None => (idle, Ok(None)),
    }
}

/// What a no-endorsement does up to the application's part in it: it is collected, and a quorum
/// lets the leader plan a block.
pub open spec fn ne_processed(
    run: Run,
    ne: NEMessage,
    origin: VerifyingKey,
    after: Run,
    plan: Result<Option<ProductionPlan>, BlockTreeError>,
) -> bool {
    if !ne_is_collected(run.hs, ne) {
        after == run && plan == Ok::<Option<ProductionPlan>, BlockTreeError>(None)
    } else if !ne_completes(run, ne, origin) {
        after == ne_gathered(run, ne, origin) && plan == Ok::<
            Option<ProductionPlan>,
            BlockTreeError,
        >(None)
    } else {
        exists|nec: NoEndorsementCertificate| #[trigger]
            ne_certifies(nec, run, ne, origin) && (after, plan) == passed_over(
                run,
                run.hs.recovery->tc,
                nec,
            )
    }
}

impl HotStuff {
    fn are_grounds_valid<R: Roles>(
        &self,
        proposal: &Proposal,
        block_tree: &BlockTreeSingleton,
        roles: &R,
        Ghost(start): Ghost<BlockTreeSingleton>,
        Ghost(run): Ghost<Run>,
    ) -> (r: bool)
        requires
            state::reached(start, *self, *block_tree, run),
            tree::initialized(run.tree),
        ensures
            r == grounds_valid(run, *roles, *proposal),
    {
        match &proposal.nec {
            Some(nec) => match valid_nec(nec, block_tree) {
                Ok(is_valid) => is_valid,
                Err(_) => false,
            },
            None => {
                if !proposal.is_reproposal() {
                    return true;
                }
                match &proposal.tc {
                    Some(tc) => {
                        let is_accepted = match block_tree.validator_set_state() {
                            Ok(state) => roles.is_timeout_certificate_correct(tc, &state),
                            Err(_) => false,
                        };
                        let names_block = match &tc.high_tip {
                            Some(tip) => tip.block_hash == proposal.block.hash,
                            None => false,
                        };
                        is_accepted && tc.view.0 < u64::MAX && self.view_info.view.0 == tc.view.0
                            + 1 && names_block
                    },
                    None => false,
                }
            },
        }
    }

    fn look_at_proposal<R: Roles>(
        &mut self,
        proposal: &Proposal,
        origin: &VerifyingKey,
        block_tree: &mut BlockTreeSingleton,
        roles: &R,
        Ghost(start): Ghost<BlockTreeSingleton>,
        Ghost(run): Ghost<Run>,
    ) -> (r: bool)
        requires
            state::reached(start, *old(self), *old(block_tree), run),
            tree::initialized(run.tree),
        ensures
            state::reached(
                start,
                *final(self),
                *final(block_tree),
                proposal_screened(run, *roles, *proposal, *origin).0,
            ),
            tree::initialized(proposal_screened(run, *roles, *proposal, *origin).0.tree),
            r == proposal_screened(run, *roles, *proposal, *origin).1,
    {
        let ghost t0 = *block_tree;
        let event = Event::ReceiveProposal { origin: *origin, proposal: proposal.clone() };
        let ghost told_event = event;
        block_tree.publish(event);
        let ghost received = state::told(run, told_event);
        proof {
            state::lemma_did(
                start,
                *self,
                t0,
                *block_tree,
                run,
                seq![Deed::Other(Effect::Publish(told_event))],
            );
        }
        let block = &proposal.block;
        match self.note_proposal(
            proposal.view,
            origin,
            block.hash,
            Ghost(start),
            Ghost(*block_tree),
            Ghost(received),
        ) {
            Some(evidence) => {
                self.catch_leader(&evidence, block_tree, Ghost(start), Ghost(received));
                self.roll_back_second(
                    &evidence,
                    block_tree,
                    Ghost(start),
                    Ghost(headers::caught(received, evidence)),
                );
                return false;
            },
            None => {},
        }
        let ghost seen = headers::noted(received, proposal.view, *origin, block.hash);
        if !self.are_grounds_valid(proposal, block_tree, roles, Ghost(start), Ghost(seen)) {
            self.hear(origin);
            return false;
        }
        let is_correct = match block.is_correct(block_tree) {
            Ok(is_correct) => is_correct,
            Err(_) => false,
        };
        let is_safe = match safe_block(block, block_tree, self.config.chain_id) {
            Ok(is_safe) => is_safe,
            Err(_) => false,
        };
        if !is_correct || !is_safe {
            if !block_tree.contains(&block.justify.block) {
                self.sync_needed = true;
            }
            self.hear(origin);
            return false;
        }
        true
    }

    /// Look at a proposal. Returns whether its block is to be put before the application.
    pub fn screen_proposal<R: Roles>(
        &mut self,
        proposal: &Proposal,
        origin: &VerifyingKey,
        block_tree: &mut BlockTreeSingleton,
        roles: &R,
    ) -> (r: bool)
        requires
            old(self).wf(),
            tree::initialized(old(block_tree)@),
        ensures
            state::reached(
                *old(block_tree),
                *final(self),
                *final(block_tree),
                proposal_screened(
                    state::begin(*old(self), *old(block_tree)),
                    *roles,
                    *proposal,
                    *origin,
                ).0,
            ),
            r == proposal_screened(
                state::begin(*old(self), *old(block_tree)),
                *roles,
                *proposal,
                *origin,
            ).1,
            tree::initialized(final(block_tree)@),
    {
        let ghost run = state::begin(*self, *block_tree);
        proof {
            state::lemma_begin(*self, *block_tree);
        }
        self.look_at_proposal(proposal, origin, block_tree, roles, Ghost(*block_tree), Ghost(run))
    }

    fn make_tip(&self, proposal: &Proposal, phase: Phase) -> (r: Option<TipInfo>)
        ensures
            r == tip_after(self@, *proposal, phase),
    {
        if proposal.is_reproposal() {
            match &proposal.tc {
                Some(tc) => match &tc.high_tip {
                    Some(tip) => Some(tip.clone()),
                    None => None,
                },
                None => None,
            }
        } else if phase.is_generic() {
            Some(
                TipInfo {
                    block_hash: proposal.block.hash,
                    block_height: proposal.block.height,
                    block_justify: proposal.block.justify.clone(),
                    block_data_hash: proposal.block.data_hash,
                    view: self.view_info.view,
                },
            )
        } else {
            None
        }
    }

    fn conclude_proposal<R: Roles>(
        &mut self,
        proposal: &Proposal,
        origin: &VerifyingKey,
        response: ValidateBlockResponse,
        block_tree: &mut BlockTreeSingleton,
        roles: &R,
        Ghost(start): Ghost<BlockTreeSingleton>,
        Ghost(run): Ghost<Run>,
    )
        requires
            state::reached(start, *old(self), *old(block_tree), run),
            tree::initialized(run.tree),
        ensures
            state::reached(
                start,
                *final(self),
                *final(block_tree),
                proposal_settled(run, *roles, *proposal, *origin, response),
            ),
            tree::initialized(proposal_settled(run, *roles, *proposal, *origin, response).tree),
    {
        let block = &proposal.block;
        match response {
            ValidateBlockResponse::Valid { app_state_updates, validator_set_updates } => {
                let _ = self.take_in(
                    block,
                    &app_state_updates,
                    &validator_set_updates,
                    block_tree,
                    roles,
                    Ghost(start),
                    Ghost(run),
                );
                let ghost after = acting::taken_in(
                    run,
                    *roles,
                    *block,
                    app_state_updates,
                    validator_set_updates,
                ).0;
                if self.is_allowed_to_vote(
                    &block.justify,
                    block_tree,
                    roles,
                    Ghost(start),
                    Ghost(after),
                ) {
                    let phase = if validator_set_updates.is_some() {
                        Phase::Prepare
                    } else {
                        Phase::Generic
                    };
                    let tip = self.make_tip(proposal, phase);
                    self.cast_vote(
                        block.hash,
                        phase,
                        tip,
                        block_tree,
                        roles,
                        Ghost(start),
                        Ghost(after),
                    );
                }
            },
            _ => {},
        }
        self.hear(origin);
    }

    /// Act on the application's verdict on a proposed block.
    pub fn settle_proposal<R: Roles>(
        &mut self,
        proposal: &Proposal,
        origin: &VerifyingKey,
        response: ValidateBlockResponse,
        block_tree: &mut BlockTreeSingleton,
        roles: &R,
    )
        requires
            old(self).wf(),
            tree::initialized(old(block_tree)@),
        ensures
            state::reached(
                *old(block_tree),
                *final(self),
                *final(block_tree),
                proposal_settled(
                    state::begin(*old(self), *old(block_tree)),
                    *roles,
                    *proposal,
                    *origin,
                    response,
                ),
            ),
            tree::initialized(final(block_tree)@),
    {
        let ghost run = state::begin(*self, *block_tree);
        proof {
            state::lemma_begin(*self, *block_tree);
        }
        self.conclude_proposal(
            proposal,
            origin,
            response,
            block_tree,
            roles,
            Ghost(*block_tree),
            Ghost(run),
        );
    }

    /// Process a proposal: if it is safe and the application finds its block valid, take the block
    /// in and vote for it.
    pub fn on_receive_proposal<R: Roles, A: App>(
        &mut self,
        proposal: Proposal,
        origin: &VerifyingKey,
        block_tree: &mut BlockTreeSingleton,
        app: &mut A,
        roles: &R,
    ) -> (r: Result<(), HotStuffError>)
        requires
            old(self).wf(),
            tree::initialized(old(block_tree)@),
        ensures
            r is Ok,
            proposal_received(
                *old(self),
                *old(block_tree),
                *final(self),
                *final(block_tree),
                *roles,
                proposal,
                *origin,
            ),
            tree::initialized(final(block_tree)@),
    {
        let ghost start = *block_tree;
        let ghost run = proposal_screened(
            state::begin(*self, *block_tree),
            *roles,
            proposal,
            *origin,
        ).0;
        if self.screen_proposal(&proposal, origin, block_tree, roles) {
            let response = match Self::validation_request(&proposal.block, block_tree) {
                Ok(request) => app.validate_block(request),
                Err(e) => {
                    return Err(HotStuffError::BlockTreeError(e));
                },
            };
            self.conclude_proposal(
                &proposal,
                origin,
                response,
                block_tree,
                roles,
                Ghost(start),
                Ghost(run),
            );
        }
        Ok(())
    }

    fn set_nudged_tip(
        &self,
        justify: &PhaseCertificate,
        block_tree: &mut BlockTreeSingleton,
        Ghost(start): Ghost<BlockTreeSingleton>,
        Ghost(run): Ghost<Run>,
    )
        requires
            state::reached(start, *self, *old(block_tree), run),
            tree::initialized(run.tree),
        ensures
            state::reached(start, *self, *final(block_tree), tip_nudged(run, *justify)),
            tree::initialized(tip_nudged(run, *justify).tree),
    {
        match block_tree.block(&justify.block) {
            Ok(Some(block)) => {
                let tip = TipInfo {
                    block_hash: block.hash,
                    block_height: block.height,
                    block_justify: justify.clone(),
                    block_data_hash: block.data_hash,
                    view: self.view_info.view,
                };
                let ghost before = *block_tree;
                let _ = block_tree.set_local_tip(&tip);
                proof {
                    state::lemma_did(
                        start,
                        *self,
                        before,
                        *block_tree,
                        run,
                        variables::written(WriteOp::SetLocalTip(tip)),
                    );
                }
            },
            _ => {},
        }
    }

    /// Process a nudge: if it is safe, act on its certificate and vote for the next phase.
    pub fn on_receive_nudge<R: Roles>(
        &mut self,
        nudge: Nudge,
        origin: &VerifyingKey,
        block_tree: &mut BlockTreeSingleton,
        roles: &R,
    ) -> (r: Result<(), HotStuffError>)
        requires
            old(self).wf(),
            tree::initialized(old(block_tree)@),
        ensures
            r is Ok,
            state::reached(
                *old(block_tree),
                *final(self),
                *final(block_tree),
                nudge_received(state::begin(*old(self), *old(block_tree)), *roles, nudge, *origin),
            ),
            tree::initialized(final(block_tree)@),
    {
        let ghost start = *block_tree;
        let ghost run = state::begin(*self, *block_tree);
        proof {
            state::lemma_begin(*self, *block_tree);
        }
        let event = Event::ReceiveNudge { origin: *origin, nudge: nudge.clone() };
        let ghost told_event = event;
        block_tree.publish(event);
        let ghost received = state::told(run, told_event);
        proof {
            state::lemma_did(
                start,
                *self,
                start,
                *block_tree,
                run,
                seq![Deed::Other(Effect::Publish(told_event))],
            );
        }
        let is_correct = match nudge.justify.is_correct(block_tree) {
            Ok(is_correct) => is_correct,
            Err(e) => {
                return Err(HotStuffError::BlockTreeError(e));
            },
        };
        let is_safe = match safe_nudge(
            &nudge,
            self.view_info.view,
            block_tree,
            self.config.chain_id,
        ) {
            Ok(is_safe) => is_safe,
            Err(e) => {
                return Err(HotStuffError::BlockTreeError(e));
            },
        };
        if !is_correct || !is_safe {
            self.hear(origin);
            return Ok(());
        }
        let _ = self.act_on(&nudge.justify, block_tree, roles, Ghost(start), Ghost(received));
        let ghost run1 = acting::acted(received, *roles, nudge.justify).0;
        self.refresh_collectors(block_tree, Ghost(start), Ghost(run1));
        let ghost run2 = acting::refreshed(run1);
        self.set_nudged_tip(&nudge.justify, block_tree, Ghost(start), Ghost(run2));
        let ghost run3 = tip_nudged(run2, nudge.justify);
        if self.is_allowed_to_vote(&nudge.justify, block_tree, roles, Ghost(start), Ghost(run3)) {
            let phase = match nudge.justify.phase {
                Phase::Prepare => Phase::Precommit,
                Phase::Precommit => Phase::Commit,
                _ => Phase::Decide,
            };
            self.cast_phase_vote(
                nudge.justify.block,
                phase,
                block_tree,
                roles,
                Ghost(start),
                Ghost(run3),
            );
        }
        self.hear(origin);
        Ok(())
    }

    fn is_collected_safe(
        &self,
        pc: &PhaseCertificate,
        block_tree: &BlockTreeSingleton,
        Ghost(start): Ghost<BlockTreeSingleton>,
        Ghost(run): Ghost<Run>,
    ) -> (r: bool)
        requires
            state::reached(start, *self, *block_tree, run),
            tree::initialized(run.tree),
        ensures
            r == collected_safe(run, *pc),
    {
        let is_correct = match pc.is_correct(block_tree) {
            Ok(is_correct) => is_correct,
            Err(_) => false,
        };
        if !is_correct {
            return false;
        }
        if self.pending_headers.contains_key(&pc.block) || self.pending_bodies.contains_key(
            &pc.block,
        ) {
            match safe_pc_lock_clause(pc, block_tree) {
                Ok(is_allowed) => is_allowed,
                Err(_) => false,
            }
        } else {
            match safe_pc(pc, block_tree, self.config.chain_id) {
                Ok(is_safe) => is_safe,
                Err(_) => false,
            }
        }
    }

    fn use_certificate<R: Roles>(
        &mut self,
        pc: PhaseCertificate,
        block_tree: &mut BlockTreeSingleton,
        roles: &R,
        Ghost(start): Ghost<BlockTreeSingleton>,
        Ghost(run): Ghost<Run>,
    )
        requires
            state::reached(start, *old(self), *old(block_tree), run),
            tree::initialized(run.tree),
        ensures
            state::reached(
                start,
                *final(self),
                *final(block_tree),
                certificate_collected(run, *roles, pc),
            ),
            tree::initialized(certificate_collected(run, *roles, pc).tree),
    {
        let event = Event::CollectPC { phase_certificate: pc.clone() };
        let ghost told_event = event;
        let ghost t0 = *block_tree;
        block_tree.publish(event);
        let ghost announced = state::told(run, told_event);
        proof {
            state::lemma_did(
                start,
                *self,
                t0,
                *block_tree,
                run,
                seq![Deed::Other(Effect::Publish(told_event))],
            );
        }
        if !self.is_collected_safe(&pc, block_tree, Ghost(start), Ghost(announced)) {
            return;
        }
        let ghost t1 = *block_tree;
        let _ = block_tree.advance_highest_pc_from_remote(&pc);
        let ghost deeds = variables::remote_pc_deeds(announced.tree, pc);
        let ghost highest = state::did(announced, deeds);
        proof {
            state::lemma_did(start, *self, t1, *block_tree, announced, deeds);
        }
        let _ = self.act_on(&pc, block_tree, roles, Ghost(start), Ghost(highest));
        let ghost mut current = acting::acted(highest, *roles, pc).0;
        if pc.phase.is_generic() {
            match block_tree.block_justify(&pc.block) {
                Ok(justify) => {
                    if justify.view.0 < u64::MAX && justify.view.0 + 1 == pc.view.0 {
                        let ghost t2 = *block_tree;
                        let _ = block_tree.add_speculative_commit(pc.block);
                        proof {
                            let deeds = speculation::speculate(current.tree, pc.block);
                            state::lemma_did(start, *self, t2, *block_tree, current, deeds);
                            current = state::did(current, deeds);
                        }
                    }
                },
                Err(_) => {},
            }
        }
        self.refresh_collectors(block_tree, Ghost(start), Ghost(current));
        if pc.phase.is_generic() {
            let ghost t3 = *block_tree;
            let ghost certificate = pc;
            block_tree.emit(Effect::BroadcastAdvanceView(pc));
            proof {
                state::lemma_did(
                    start,
                    *self,
                    t3,
                    *block_tree,
                    acting::refreshed(current),
                    seq![Deed::Other(Effect::BroadcastAdvanceView(certificate))],
                );
            }
        }
    }

    /// Act on a certificate that the replica collected.
    pub fn apply_collected_certificate<R: Roles>(
        &mut self,
        pc: PhaseCertificate,
        block_tree: &mut BlockTreeSingleton,
        roles: &R,
    )
        requires
            old(self).wf(),
            tree::initialized(old(block_tree)@),
        ensures
            state::reached(
                *old(block_tree),
                *final(self),
                *final(block_tree),
                certificate_collected(state::begin(*old(self), *old(block_tree)), *roles, pc),
            ),
            tree::initialized(final(block_tree)@),
    {
        let ghost run = state::begin(*self, *block_tree);
        proof {
            state::lemma_begin(*self, *block_tree);
        }
        self.use_certificate(pc, block_tree, roles, Ghost(*block_tree), Ghost(run));
    }

    /// Process a vote: count it if it is signed by the sender, and act on the certificate that it
    /// completes.
    pub fn on_receive_phase_vote<R: Roles>(
        &mut self,
        phase_vote: PhaseVote,
        signer: &VerifyingKey,
        block_tree: &mut BlockTreeSingleton,
        roles: &R,
    ) -> (r: Result<(), HotStuffError>)
        requires
            old(self).wf(),
            tree::initialized(old(block_tree)@),
        ensures
            r is Ok,
            vote_received(
                *old(self),
                *old(block_tree),
                *final(self),
                *final(block_tree),
                *roles,
                phase_vote,
                *signer,
            ),
            tree::initialized(final(block_tree)@),
    {
        let ghost start = *block_tree;
        let ghost run = state::begin(*self, *block_tree);
        proof {
            state::lemma_begin(*self, *block_tree);
        }
        let event = Event::ReceivePhaseVote { origin: *signer, phase_vote };
        let ghost told_event = event;
        block_tree.publish(event);
        proof {
            state::lemma_did(
                start,
                *self,
                start,
                *block_tree,
                run,
                seq![Deed::Other(Effect::Publish(told_event))],
            );
        }
        if phase_vote.is_correct(signer) {
            let collected = self.phase_vote_collectors.collect(signer, phase_vote);
            let ghost counted = vote_counted(run, phase_vote, *signer);
            assert(state::reached(start, *self, *block_tree, counted.0));
            match collected {
                Some(pc) => {
                    assert(certifies(pc, phase_vote, counted.1->0));
                    self.use_certificate(pc, block_tree, roles, Ghost(start), Ghost(counted.0));
                },
                None => {},
            }
        }
        Ok(())
    }

    /// Process a new-view message: act on its certificate if it is safe.
    pub fn on_receive_new_view<R: Roles>(
        &mut self,
        new_view: NewView,
        origin: &VerifyingKey,
        block_tree: &mut BlockTreeSingleton,
        roles: &R,
    ) -> (r: Result<(), HotStuffError>)
        requires
            old(self).wf(),
            tree::initialized(old(block_tree)@),
        ensures
            r is Ok,
            state::reached(
                *old(block_tree),
                *final(self),
                *final(block_tree),
                new_view_received(state::begin(*old(self), *old(block_tree)), *roles, new_view, *origin),
            ),
            tree::initialized(final(block_tree)@),
    {
        let ghost start = *block_tree;
        let ghost run = state::begin(*self, *block_tree);
        proof {
            state::lemma_begin(*self, *block_tree);
        }
        let event = Event::ReceiveNewView { origin: *origin, new_view: new_view.clone() };
        let ghost told_event = event;
        block_tree.publish(event);
        let ghost received = state::told(run, told_event);
        proof {
            state::lemma_did(
                start,
                *self,
                start,
                *block_tree,
                run,
                seq![Deed::Other(Effect::Publish(told_event))],
            );
        }
        let is_correct = match new_view.highest_pc.is_correct(block_tree) {
            Ok(is_correct) => is_correct,
            Err(e) => {
                return Err(HotStuffError::BlockTreeError(e));
            },
        };
        let is_safe = match safe_pc(&new_view.highest_pc, block_tree, self.config.chain_id) {
            Ok(is_safe) => is_safe,
            Err(e) => {
                return Err(HotStuffError::BlockTreeError(e));
            },
        };
        if is_correct && is_safe {
            let _ = self.act_on(
                &new_view.highest_pc,
                block_tree,
                roles,
                Ghost(start),
                Ghost(received),
            );
            let ghost run1 = acting::acted(received, *roles, new_view.highest_pc).0;
            self.refresh_collectors(block_tree, Ghost(start), Ghost(run1));
        }
        Ok(())
    }

    /// Process a request for the block of a timed-out view.
    pub fn on_receive_proposal_request(
        &mut self,
        request: ProposalRequest,
        origin: &VerifyingKey,
        block_tree: &mut BlockTreeSingleton,
    ) -> (r: Result<(), HotStuffError>)
        requires
            store::readable(old(block_tree)@),
            old(self).wf(),
        ensures
            r is Ok,
            state::reached(
                *old(block_tree),
                *final(self),
                *final(block_tree),
                proposal_requested(state::begin(*old(self), *old(block_tree)), request, *origin),
            ),
            tree::initialized(old(block_tree)@) ==> tree::initialized(final(block_tree)@),
    {
        let ghost start = *block_tree;
        let ghost run = state::begin(*self, *block_tree);
        proof {
            state::lemma_begin(*self, *block_tree);
        }
        if request.view.0 != self.view_info.view.0 {
            return Ok(());
        }
        match &request.tc.high_tip {
            Some(tip) => match block_tree.block(&tip.block_hash) {
                Ok(Some(block)) => {
                    let proposal = Proposal {
                        chain_id: request.chain_id,
                        view: request.view,
                        block,
                        tc: Some(request.tc.clone()),
                        nec: None,
                    };
                    let message = HotStuffMessage::ProposalResponse(
                        ProposalResponse {
                            chain_id: request.chain_id,
                            view: request.view,
                            proposal,
                        },
                    );
                    let ghost sent_message = message;
                    block_tree.emit(Effect::Send(*origin, message));
                    proof {
                        state::lemma_did(
                            start,
                            *self,
                            start,
                            *block_tree,
                            run,
                            voting::sent(*origin, sent_message),
                        );
                    }
                },
                _ => {},
            },
            None => {},
        }
        Ok(())
    }

    /// Process the block of a timed-out view: propose it again if the replica is looking for it.
    pub fn on_receive_proposal_response(
        &mut self,
        response: ProposalResponse,
        block_tree: &mut BlockTreeSingleton,
    ) -> (r: Result<(), HotStuffError>)
        requires
            old(self).wf(),
            tree::initialized(old(block_tree)@),
        ensures
            r is Ok,
            state::reached(
                *old(block_tree),
                *final(self),
                *final(block_tree),
                proposal_recovered(state::begin(*old(self), *old(block_tree)), response),
            ),
            tree::initialized(final(block_tree)@),
    {
        let ghost start = *block_tree;
        let ghost run = state::begin(*self, *block_tree);
        proof {
            state::lemma_begin(*self, *block_tree);
        }
        if response.view.0 != self.view_info.view.0 {
            return Ok(());
        }
        let tc = match &self.recovery_state {
            RecoveryState::Recovering { tc, ne_collector: _ } => tc.clone(),
            RecoveryState::Idle => {
                return Ok(());
            },
        };
        match &tc.high_tip {
            Some(tip) => {
                if response.proposal.block.hash != tip.block_hash {
                    return Ok(());
                }
            },
            None => {
                return Ok(());
            },
        }
        match response.proposal.block.is_correct(block_tree) {
            Ok(true) => {},
            _ => {
                return Ok(());
            },
        }
        match safe_block(&response.proposal.block, block_tree, self.config.chain_id) {
            Ok(true) => {},
            _ => {
                return Ok(());
            },
        }
        self.recovery_state = RecoveryState::Idle;
        let ghost idle = state::now_holding(run, HsView { recovery: RecoveryView::Idle, ..run.hs });
        let has_updates = match block_tree.validator_set_updates_status(
            &response.proposal.block.hash,
        ) {
            Ok(ValidatorSetUpdatesStatus::NoUpdates) => false,
            _ => true,
        };
        let proposal = Proposal {
            chain_id: self.config.chain_id,
            view: self.view_info.view,
            block: response.proposal.block,
            tc: Some(tc),
            nec: None,
        };
        self.propose(proposal, has_updates, block_tree, Ghost(start), Ghost(idle));
        Ok(())
    }

    fn has_sent_ne(&self, view: ViewNumber) -> (r: bool)
        ensures
            r == self@.ne_sent_views.contains(view),
    {
        let mut i: usize = 0;
        while i < self.ne_sent_views.len()
            invariant
                i <= self.ne_sent_views@.len(),
                forall|j: int| 0 <= j < i ==> self.ne_sent_views@[j] != view,
            decreases self.ne_sent_views@.len() - i,
        {
            if self.ne_sent_views[i].0 == view.0 {
                assert(self.ne_sent_views@[i as int] == view);
                return true;
            }
            i = i + 1;
        }
        false
    }

    /// Process a request for a no-endorsement.
    pub fn on_receive_ne_request<R: Roles>(
        &mut self,
        request: NERequest,
        block_tree: &mut BlockTreeSingleton,
        roles: &R,
    ) -> (r: Result<(), HotStuffError>)
        requires
            old(self).wf(),
            tree::initialized(old(block_tree)@),
        ensures
            r is Ok,
            state::reached(
                *old(block_tree),
                *final(self),
                *final(block_tree),
                ne_requested(state::begin(*old(self), *old(block_tree)), *roles, request),
            ),
            tree::initialized(final(block_tree)@),
    {
        let ghost start = *block_tree;
        let ghost run = state::begin(*self, *block_tree);
        proof {
            state::lemma_begin(*self, *block_tree);
        }
        if request.view.0 != self.view_info.view.0 || self.has_sent_ne(request.view) {
            return Ok(());
        }
        let tip = match &request.tc.high_tip {
            Some(tip) => tip,
            None => {
                return Ok(());
            },
        };
        match block_tree.last_voted_proposal() {
            Ok(Some((view, block))) => {
                if view.0 == request.tc.view.0 && block == tip.block_hash {
                    return Ok(());
                }
            },
            _ => {},
        }
        let ne = NEMessage::new(
            &self.config.keypair,
            self.config.chain_id,
            request.view,
            tip.block_justify.view,
        );
        proof {
            self.config.keypair.lemma_signature_of(
                codec::ne_message(request.view, tip.block_justify.view),
                ne.signature,
            );
        }
        let validators = match block_tree.committed_validator_set() {
            Ok(validators) => validators,
            Err(e) => {
                return Err(HotStuffError::BlockTreeError(e));
            },
        };
        let reputation = match block_tree.leader_reputation() {
            Ok(reputation) => reputation,
            Err(e) => {
                return Err(HotStuffError::BlockTreeError(e));
            },
        };
        let leader = roles.select_leader_with_reputation(request.view, &validators, &reputation);
        block_tree.emit(Effect::Send(leader, HotStuffMessage::NE(ne)));
        proof {
            state::lemma_did(
                start,
                *self,
                start,
                *block_tree,
                run,
                voting::sent(leader, HotStuffMessage::NE(ne)),
            );
        }
        self.ne_sent_views.push(request.view);
        Ok(())
    }

    fn plan_to_pass_over(
        &mut self,
        tc: TimeoutCertificate,
        nec: NoEndorsementCertificate,
        block_tree: &BlockTreeSingleton,
        Ghost(start): Ghost<BlockTreeSingleton>,
        Ghost(run): Ghost<Run>,
    ) -> (r: Result<Option<ProductionPlan>, BlockTreeError>)
        requires
            store::readable(block_tree@),
            state::reached(start, *old(self), *block_tree, run),
        ensures
            state::reached(start, *final(self), *block_tree, passed_over(run, tc, nec).0),
            r == passed_over(run, tc, nec).1,
    {
        self.recovery_state = RecoveryState::Idle;
        let justify = match &tc.high_tip {
            Some(tip) => tip.block_justify.clone(),
            None => {
                return Ok(None);
            },
        };
        match self.place_on(&justify, block_tree) {
            Some((parent, height)) => Ok(
                Some(
                    ProductionPlan {
                        occasion: Occasion::Recovery { tc, nec },
                        parent,
                        height,
                        justify,
                    },
                ),
            ),
            None => Err(BlockTreeError::BlockExpectedButNotFound { block: justify.block }),
        }
    }

    /// Collect a no-endorsement. Returns the block that the application is to produce if a quorum
    /// lets the replica pass over the block of the timed-out view.
    pub fn collect_ne(
        &mut self,
        ne: NEMessage,
        origin: &VerifyingKey,
        block_tree: &BlockTreeSingleton,
    ) -> (r: Result<Option<ProductionPlan>, BlockTreeError>)
        requires
            store::readable(block_tree@),
            old(self).wf(),
        ensures
            exists|run: Run| #[trigger]
                ne_processed(state::begin(*old(self), *block_tree), ne, *origin, run, r) && state::reached(
                    *block_tree,
                    *final(self),
                    *block_tree,
                    run,
                ),
    {
        let ghost start = *block_tree;
        let ghost run = state::begin(*self, *block_tree);
        proof {
            state::lemma_begin(*self, *block_tree);
        }
        if ne.view.0 != self.view_info.view.0 {
            assert(ne_processed(run, ne, *origin, run, Ok(None)));
            return Ok(None);
        }
        let mut state = RecoveryState::Idle;
        std::mem::swap(&mut state, &mut self.recovery_state);
        match state {
            RecoveryState::Idle => {
                assert(self@ =~= run.hs);
                assert(ne_processed(run, ne, *origin, run, Ok(None)));
                Ok(None)
            },
            RecoveryState::Recovering { tc, mut ne_collector } => {
                let ghost certificate = tc;
                let collected = ne_collector.collect(
                    origin,
                    ne.view,
                    ne.high_tip_qc_view,
                    ne.signature,
                );
                let ghost gathered = ne_gathered(run, ne, *origin);
                match collected {
                    Some(nec) => {
                        assert(ne_certifies(nec, run, ne, *origin));
                        let ghost idle = state::now_holding(
                            run,
                            HsView { recovery: RecoveryView::Idle, ..run.hs },
                        );
                        assert(self@ =~= idle.hs);
                        let r = self.plan_to_pass_over(
                            tc,
                            nec,
                            block_tree,
                            Ghost(start),
                            Ghost(idle),
                        );
                        proof {
                            assert(passed_over(idle, tc, nec) == passed_over(run, tc, nec));
                            assert(ne_completes(run, ne, *origin));
                            assert(ne_processed(
                                run,
                                ne,
                                *origin,
                                passed_over(run, tc, nec).0,
                                r,
                            ));
                        }
                        r
                    },
                    None => {
                        self.recovery_state = RecoveryState::Recovering { tc, ne_collector };
                        proof {
                            assert(self@ =~= gathered.hs);
                            assert(!ne_completes(run, ne, *origin));
                            assert(ne_processed(run, ne, *origin, gathered, Ok(None)));
                        }
                        Ok(None)
                    },
                }
            },
        }
    }

    /// Process a no-endorsement: see [`Self::collect_ne`] and [`Self::complete_proposal`], between
    /// which the application produces a block.
    pub fn on_receive_ne<R: Roles, A: App>(
        &mut self,
        ne: NEMessage,
        origin: &VerifyingKey,
        block_tree: &mut BlockTreeSingleton,
        app: &mut A,
        roles: &R,
    ) -> (r: Result<(), HotStuffError>)
        requires
            old(self).wf(),
            tree::initialized(old(block_tree)@),
        ensures
            ne_received(
                *old(self),
                *old(block_tree),
                *final(self),
                *final(block_tree),
                *roles,
                ne,
                *origin,
                r,
            ),
            tree::initialized(final(block_tree)@),
    {
        let ghost start = *block_tree;
        let ghost run = state::begin(*self, *block_tree);
        let result = self.collect_ne(ne, origin, block_tree);
        let ghost outcome = result;
        let ghost after = choose|after: Run| #[trigger]
            ne_processed(run, ne, *origin, after, outcome) && state::reached(start, *self, start, after);
        assert(ne_processed(run, ne, *origin, after, outcome) && state::reached(
            start,
            *self,
            start,
            after,
        ));
        match result {
            Err(e) => Err(HotStuffError::BlockTreeError(e)),
            Ok(None) => Ok(()),
            Ok(Some(plan)) => {
                let ghost the_plan = plan;
                let response = match self.production_request(&plan, block_tree) {
                    Ok(request) => app.produce_block(request),
                    Err(e) => {
                        return Err(HotStuffError::BlockTreeError(e));
                    },
                };
                let ghost the_response = response;
                self.finish_proposal(
                    plan,
                    response,
                    block_tree,
                    roles,
                    Ghost(start),
                    Ghost(after),
                );
                assert(state::reached(
                    start,
                    *self,
                    *block_tree,
                    proposing::completed(after, *roles, the_plan, the_response),
                ));
                Ok(())
            },
        }
    }

    fn is_proposer_in<R: Roles>(
        &self,
        replica: &VerifyingKey,
        view: ViewNumber,
        block_tree: &BlockTreeSingleton,
        roles: &R,
    ) -> (r: bool)
        requires
            tree::initialized(block_tree@),
        ensures
            r == roles.proposes(
                *replica,
                view,
                tree::validators_of(block_tree@),
                tree::reputation_of(block_tree@).0,
            ),
    {
        match (block_tree.validator_set_state(), block_tree.leader_reputation()) {
            (Ok(state), Ok(reputation)) => roles.is_proposer_with_reputation(
                replica,
                view,
                &state,
                &reputation,
            ),
            _ => false,
        }
    }

    fn is_admitted<R: Roles>(
        &self,
        message: &HotStuffMessage,
        origin: &VerifyingKey,
        block_tree: &BlockTreeSingleton,
        roles: &R,
    ) -> (r: bool)
        requires
            tree::initialized(block_tree@),
        ensures
            r == admitted(state::begin(*self, *block_tree), *roles, *message, *origin),
    {
        match message {
            HotStuffMessage::ProposalHeader(header) => self.is_proposer_in(
                origin,
                header.view,
                block_tree,
                roles,
            ),
            HotStuffMessage::Proposal(_) => self.is_proposer_in(
                origin,
                self.view_info.view,
                block_tree,
                roles,
            ) && !self.proposal_status.has_one_leader_proposed(origin)
                && !self.proposal_status.have_all_leaders_proposed(),
            HotStuffMessage::Nudge(_) => self.is_proposer_in(
                origin,
                self.view_info.view,
                block_tree,
                roles,
            ) && !self.proposal_status.has_one_leader_proposed(origin)
                && !self.proposal_status.have_all_leaders_proposed(),
            _ => true,
        }
    }

    /// Process a message. A proposal, header or nudge that does not come from a leader is ignored,
    /// and so is a proposal or nudge of a leader that was heard in this view.
    pub fn on_receive_msg<R: Roles, A: App>(
        &mut self,
        message: HotStuffMessage,
        origin: &VerifyingKey,
        now: u64,
        block_tree: &mut BlockTreeSingleton,
        app: &mut A,
        roles: &R,
    ) -> (r: Result<(), HotStuffError>)
        requires
            old(self).wf(),
            tree::initialized(old(block_tree)@),
        ensures
            message_received(
                *old(self),
                *old(block_tree),
                *final(self),
                *final(block_tree),
                *roles,
                message,
                *origin,
                now,
                r,
            ),
            final(self).wf(),
            tree::initialized(final(block_tree)@),
    {
        proof {
            reveal(message_received);
        }
        if !self.is_admitted(&message, origin, block_tree, roles) {
            proof {
                state::lemma_begin(*self, *block_tree);
            }
            return Ok(());
        }
        match message {
            HotStuffMessage::Proposal(proposal) => self.on_receive_proposal(
                proposal,
                origin,
                block_tree,
                app,
                roles,
            ),
            HotStuffMessage::Nudge(nudge) => self.on_receive_nudge(
                nudge,
                origin,
                block_tree,
                roles,
            ),
            HotStuffMessage::PhaseVote(vote) => self.on_receive_phase_vote(
                vote,
                origin,
                block_tree,
                roles,
            ),
            HotStuffMessage::NewView(new_view) => self.on_receive_new_view(
                new_view,
                origin,
                block_tree,
                roles,
            ),
            HotStuffMessage::ProposalRequest(request) => self.on_receive_proposal_request(
                request,
                origin,
                block_tree,
            ),
            HotStuffMessage::ProposalResponse(response) => self.on_receive_proposal_response(
                response,
                block_tree,
            ),
            HotStuffMessage::NERequest(request) => self.on_receive_ne_request(
                request,
                block_tree,
                roles,
            ),
            HotStuffMessage::NE(ne) => self.on_receive_ne(ne, origin, block_tree, app, roles),
            HotStuffMessage::ProposalHeader(header) => self.on_receive_proposal_header(
                header,
                origin,
                now,
                block_tree,
                app,
                roles,
            ),
            HotStuffMessage::BlockDataRequest(request) => self.on_receive_block_data_request(
                request,
                origin,
                block_tree,
            ),
            HotStuffMessage::BlockDataResponse(response) => self.on_receive_block_data_response(
                response,
                block_tree,
                app,
                roles,
            ),
        }
    }
}

/// What the arrival of a no-endorsement does.
pub open spec fn ne_received<R: Roles>(
    hs: HotStuff,
    tree: BlockTreeSingleton,
    hs_after: HotStuff,
    tree_after: BlockTreeSingleton,
    roles: R,
    ne: NEMessage,
    origin: VerifyingKey,
    r: Result<(), HotStuffError>,
) -> bool {
    exists|run: Run, plan: Result<Option<ProductionPlan>, BlockTreeError>|
        {
            &&& #[trigger] ne_processed(state::begin(hs, tree), ne, origin, run, plan)
            &&& match plan {
                Err(e) => r == Err::<(), HotStuffError>(HotStuffError::BlockTreeError(e))
                    && state::reached(tree, hs_after, tree_after, run),
                Ok(None) => r is Ok && state::reached(tree, hs_after, tree_after, run),
                Ok(Some(plan)) => r is Ok && exists|response: ProduceBlockResponse|
                    state::reached(
                        tree,
                        hs_after,
                        tree_after,
                        #[trigger] proposing::completed(run, roles, plan, response),
                    ),
            }
        }
}

/// Whether a message is looked at: a proposal, header or nudge has to come from a leader of its
/// view, and a proposal or nudge from one that was not heard in the view.
pub open spec fn admitted<R: Roles>(
    run: Run,
    roles: R,
    message: HotStuffMessage,
    origin: VerifyingKey,
) -> bool {
    let validators = tree::validators_of(run.tree);
    let records = tree::reputation_of(run.tree).0;
    match message {
        HotStuffMessage::ProposalHeader(header) => roles.proposes(
            origin,
            header.view,
            validators,
            records,
        ),
        HotStuffMessage::Proposal(_) | HotStuffMessage::Nudge(_) => roles.proposes(
            origin,
            run.hs.view_info.view,
            validators,
            records,
        ) && state::still_accepts(run.hs.status, origin),
        _ => true,
    }
}

/// What the arrival of a message does.
#[verifier::opaque]
pub open spec fn message_received<R: Roles>(
    hs: HotStuff,
    tree: BlockTreeSingleton,
    hs_after: HotStuff,
    tree_after: BlockTreeSingleton,
    roles: R,
    message: HotStuffMessage,
    origin: VerifyingKey,
    now: u64,
    r: Result<(), HotStuffError>,
) -> bool {
    let run = state::begin(hs, tree);
    if !admitted(run, roles, message, origin) {
        r is Ok && state::reached(tree, hs_after, tree_after, run)
    } else {
        match message {
            HotStuffMessage::Proposal(proposal) => r is Ok && proposal_received(
                hs,
                tree,
                hs_after,
                tree_after,
                roles,
                proposal,
                origin,
            ),
            HotStuffMessage::Nudge(nudge) => r is Ok && state::reached(
                tree,
                hs_after,
                tree_after,
                nudge_received(run, roles, nudge, origin),
            ),
            HotStuffMessage::PhaseVote(vote) => r is Ok && vote_received(
                hs,
                tree,
                hs_after,
                tree_after,
                roles,
                vote,
                origin,
            ),
            HotStuffMessage::NewView(new_view) => r is Ok && state::reached(
                tree,
                hs_after,
                tree_after,
                new_view_received(run, roles, new_view, origin),
            ),
            HotStuffMessage::ProposalRequest(request) => r is Ok && state::reached(
                tree,
                hs_after,
                tree_after,
                proposal_requested(run, request, origin),
            ),
            HotStuffMessage::ProposalResponse(response) => r is Ok && state::reached(
                tree,
                hs_after,
                tree_after,
                proposal_recovered(run, response),
            ),
            HotStuffMessage::NERequest(request) => r is Ok && state::reached(
                tree,
                hs_after,
                tree_after,
                ne_requested(run, roles, request),
            ),
            HotStuffMessage::NE(ne) => ne_received(
                hs,
                tree,
                hs_after,
                tree_after,
                roles,
                ne,
                origin,
                r,
            ),
            HotStuffMessage::ProposalHeader(header) => r is Ok && headers::header_received(
                hs,
                tree,
                hs_after,
                tree_after,
                roles,
                header,
                origin,
                now,
            ),
            HotStuffMessage::BlockDataRequest(request) => r is Ok && state::reached(
                tree,
                hs_after,
                tree_after,
                bodies::body_served(run, request, origin),
            ),
            HotStuffMessage::BlockDataResponse(response) => r is Ok && bodies::body_received(
                hs,
                tree,
                hs_after,
                tree_after,
                roles,
                response.block,
            ),
        }
    }
}

} // verus!

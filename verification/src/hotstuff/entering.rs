//! What a participant does when the pacemaker moves on.

use vstd::prelude::*;

use crate::app::{App, ProduceBlockRequest, ProduceBlockResponse};
use crate::block_tree::app_view;
use crate::block_tree::errors::BlockTreeError;
use crate::block_tree::invariants::repropose_block;
use crate::block_tree::store;
use crate::block_tree::tree;
use crate::block_tree::tree::BlockTreeSingleton;
use crate::block_tree::variables;
use crate::block_tree::write_batch::WriteOp;
use crate::effects::{Deed, Effect};
use crate::events::Event;
use crate::hotstuff::collectors;
use crate::hotstuff::collectors::{ActiveCollectorPair, NECollector};
use crate::hotstuff::messages::{
    HotStuffMessage, NERequest, NewView, Nudge, Proposal, ProposalRequest,
};
use crate::hotstuff::proposing;
use crate::hotstuff::proposing::{other_validators, shuffle, Occasion, ProductionPlan};
use crate::hotstuff::state;
use crate::hotstuff::state::{
    HotStuff, HotStuffError, HsView, ProposalStatus, RecoveryState, RecoveryView, Run,
};
use crate::hotstuff::types::PhaseCertificate;
use crate::hotstuff::voting;
use crate::pacemaker::{TimeoutCertificate, TipInfo, ViewInfo};
use crate::roles::Roles;
use crate::types::block::Block;
use crate::types::data_types::{BlockHeight, CryptoHash, VerifyingKey};
use crate::types::validator_set;
use crate::types::validator_set::{ValidatorSet, ValidatorSetUpdatesStatus};

verus! {

/// Whether entering a view led from `hs` and `tree` to `hs_after` and `tree_after`, whatever block
/// the application produced.
pub open spec fn view_entered<R: Roles>(
    hs: HotStuff,
    tree: BlockTreeSingleton,
    hs_after: HotStuff,
    tree_after: BlockTreeSingleton,
    roles: R,
    view_info: ViewInfo,
    result: Result<(), HotStuffError>,
) -> bool {
    let (run, plan) = proposing::entered(state::begin(hs, tree), roles, view_info);
    match plan {
        Err(e) => result == Err::<(), HotStuffError>(HotStuffError::BlockTreeError(e))
            && state::reached(tree, hs_after, tree_after, run),
        Ok(None) => result is Ok && state::reached(tree, hs_after, tree_after, run),
        Ok(Some(plan)) => result is Ok && exists|response: ProduceBlockResponse|
            state::reached(
                tree,
                hs_after,
                tree_after,
                #[trigger] proposing::completed(run, roles, plan, response),
            ),
    }
}

impl HotStuff {
    /// What the application is asked when it is to produce a planned block.
    pub fn production_request<'a>(
        &self,
        plan: &ProductionPlan,
        block_tree: &'a BlockTreeSingleton,
    ) -> (r: Result<ProduceBlockRequest<'a>, BlockTreeError>)
        requires
            store::readable(block_tree@),
        ensures
            r is Ok,
            r->Ok_0.cur_view == self@.view_info.view,
            r->Ok_0.parent_block == plan.parent,
            r->Ok_0.app_view.block_tree == block_tree,
            r->Ok_0.app_view.pending_ancestors_app_state_updates@ == app_view::pending_ancestry(
                block_tree@,
                plan.parent,
                u64::MAX as nat,
            ),
    {
        let parent = plan.parent.as_ref();
        assert(app_view::hash_option(parent) == plan.parent);
        match block_tree.app_view(parent) {
            Ok(app_view) => Ok(
                ProduceBlockRequest {
                    cur_view: self.view_info.view,
                    parent_block: plan.parent,
                    app_view,
                },
            ),
            Err(e) => Err(e),
        }
    }

    pub(crate) fn finish_proposal<R: Roles>(
        &mut self,
        plan: ProductionPlan,
        response: ProduceBlockResponse,
        block_tree: &mut BlockTreeSingleton,
        roles: &R,
        Ghost(start): Ghost<BlockTreeSingleton>,
        Ghost(run): Ghost<Run>,
    )
        requires
            state::reached(start, *old(self), *old(block_tree), run),
            tree::initialized(run.tree),
        ensures
            state::reached(
                start,
                *final(self),
                *final(block_tree),
                proposing::completed(run, *roles, plan, response),
            ),
            tree::initialized(proposing::completed(run, *roles, plan, response).tree),
    {
        let block = Block::new(plan.height, plan.justify, response.data_hash, response.data);
        match plan.occasion {
            Occasion::Lead => {
                self.lead(
                    block,
                    response.app_state_updates,
                    response.validator_set_updates,
                    false,
                    block_tree,
                    roles,
                    Ghost(start),
                    Ghost(run),
                );
            },
            Occasion::Retry => {
                self.lead(
                    block,
                    response.app_state_updates,
                    response.validator_set_updates,
                    true,
                    block_tree,
                    roles,
                    Ghost(start),
                    Ghost(run),
                );
            },
            Occasion::Recovery { tc, nec } => {
                let proposal = Proposal {
                    chain_id: self.config.chain_id,
                    view: self.view_info.view,
                    block,
                    tc: Some(tc),
                    nec: Some(nec),
                };
                let has_updates = response.validator_set_updates.is_some();
                self.propose(proposal, has_updates, block_tree, Ghost(start), Ghost(run));
            },
        }
    }

    /// Propose the planned block, which the application has produced.
    pub fn complete_proposal<R: Roles>(
        &mut self,
        plan: ProductionPlan,
        response: ProduceBlockResponse,
        block_tree: &mut BlockTreeSingleton,
        roles: &R,
    )
        requires
            old(self).wf(),
            tree::initialized(old(block_tree)@),
        ensures
            state::reached(
                *old(block_tree),
                *final(self),
                *final(block_tree),
                proposing::completed(state::begin(*old(self), *old(block_tree)), *roles, plan, response),
            ),
            tree::initialized(final(block_tree)@),
    {
        let ghost run = state::begin(*self, *block_tree);
        proof {
            state::lemma_begin(*self, *block_tree);
        }
        self.finish_proposal(plan, response, block_tree, roles, Ghost(*block_tree), Ghost(run));
    }

    fn plan_on_highest(
        &mut self,
        occasion: Occasion,
        block_tree: &BlockTreeSingleton,
        Ghost(start): Ghost<BlockTreeSingleton>,
        Ghost(run): Ghost<Run>,
    ) -> (r: Option<ProductionPlan>)
        requires
            state::reached(start, *old(self), *block_tree, run),
            tree::initialized(run.tree),
        ensures
            state::reached(start, *final(self), *block_tree, proposing::planned(run, occasion).0),
            proposing::planned(run, occasion).0.tree == run.tree,
            r == proposing::planned(run, occasion).1,
    {
        let justify = match block_tree.highest_pc() {
            Ok(justify) => justify,
            Err(_) => {
                return None;
            },
        };
        match self.place_on(&justify, block_tree) {
            Some((parent, height)) => Some(ProductionPlan { occasion, parent, height, justify }),
            None => {
                self.proposal_deferred = true;
                None
            },
        }
    }

    /// Where a block on top of `justify` goes.
    pub(crate) fn place_on(
        &self,
        justify: &PhaseCertificate,
        block_tree: &BlockTreeSingleton,
    ) -> (r: Option<(Option<CryptoHash>, BlockHeight)>)
        requires
            store::readable(block_tree@),
        ensures
            r == proposing::place_above(block_tree@, *justify),
    {
        if justify.is_genesis_pc() {
            Some((None, BlockHeight(0)))
        } else {
            match block_tree.block_height(&justify.block) {
                Ok(Some(height)) => if height.0 < u64::MAX {
                    Some((Some(justify.block), BlockHeight(height.0 + 1)))
                } else {
                    None
                },
                _ => None,
            }
        }
    }

    fn is_leader<R: Roles>(
        &self,
        block_tree: &BlockTreeSingleton,
        roles: &R,
        Ghost(start): Ghost<BlockTreeSingleton>,
        Ghost(run): Ghost<Run>,
    ) -> (r: bool)
        requires
            state::reached(start, *self, *block_tree, run),
            tree::initialized(run.tree),
        ensures
            r == proposing::leads(run, *roles),
    {
        match block_tree.validator_set_state() {
            Ok(state) => match block_tree.leader_reputation() {
                Ok(reputation) => roles.is_proposer_with_reputation(
                    &self.config.keypair.public(),
                    self.view_info.view,
                    &state,
                    &reputation,
                ),
                Err(_) => false,
            },
            Err(_) => false,
        }
    }

    fn retry_proposal<R: Roles>(
        &mut self,
        block_tree: &BlockTreeSingleton,
        roles: &R,
        Ghost(start): Ghost<BlockTreeSingleton>,
        Ghost(run): Ghost<Run>,
    ) -> (r: Option<ProductionPlan>)
        requires
            state::reached(start, *old(self), *block_tree, run),
            tree::initialized(run.tree),
        ensures
            state::reached(start, *final(self), *block_tree, proposing::retried(run, *roles).0),
            proposing::retried(run, *roles).0.tree == run.tree,
            r == proposing::retried(run, *roles).1,
    {
        self.proposal_deferred = false;
        let ghost cleared = state::now_holding(run, HsView { proposal_deferred: false, ..run.hs });
        let calls = match block_tree.highest_pc() {
            Ok(pc) => pc.phase.is_generic() || pc.phase.is_decide(),
            Err(_) => false,
        };
        if calls && self.is_leader(block_tree, roles, Ghost(start), Ghost(cleared)) {
            self.plan_on_highest(Occasion::Retry, block_tree, Ghost(start), Ghost(cleared))
        } else {
            None
        }
    }

    fn leave_view<R: Roles>(
        &self,
        block_tree: &mut BlockTreeSingleton,
        roles: &R,
        Ghost(start): Ghost<BlockTreeSingleton>,
        Ghost(run): Ghost<Run>,
    )
        requires
            state::reached(start, *self, *old(block_tree), run),
            tree::initialized(run.tree),
        ensures
            state::reached(start, *self, *final(block_tree), proposing::left_view(run, *roles)),
            tree::initialized(proposing::left_view(run, *roles).tree),
    {
        let (highest_pc, state, reputation) = match (
            block_tree.highest_pc(),
            block_tree.validator_set_state(),
            block_tree.leader_reputation(),
        ) {
            (Ok(highest_pc), Ok(state), Ok(reputation)) => (highest_pc, state, reputation),
            _ => {
                return;
            },
        };
        let new_view = NewView {
            chain_id: self.config.chain_id,
            view: self.view_info.view,
            highest_pc,
        };
        let (first, second) = roles.new_view_recipients_with_reputation(
            &new_view,
            &state,
            &reputation,
        );
        let ghost message = HotStuffMessage::NewView(new_view);
        let ghost t0 = *block_tree;
        block_tree.emit(Effect::Send(first, HotStuffMessage::NewView(new_view.clone())));
        let ghost mut current = state::did(run, voting::sent(first, message));
        proof {
            state::lemma_did(start, *self, t0, *block_tree, run, voting::sent(first, message));
        }
        match second {
            Some(second) => {
                let ghost before = *block_tree;
                block_tree.emit(Effect::Send(second, HotStuffMessage::NewView(new_view.clone())));
                proof {
                    state::lemma_did(
                        start,
                        *self,
                        before,
                        *block_tree,
                        current,
                        voting::sent(second, message),
                    );
                    current = state::did(current, voting::sent(second, message));
                }
            },
            None => {},
        }
        let ghost before = *block_tree;
        block_tree.publish(Event::NewView { new_view });
        proof {
            state::lemma_did(
                start,
                *self,
                before,
                *block_tree,
                current,
                seq![Deed::Other(Effect::Publish(Event::NewView { new_view }))],
            );
        }
    }

    fn move_on(
        &mut self,
        view_info: ViewInfo,
        block_tree: &mut BlockTreeSingleton,
        Ghost(start): Ghost<BlockTreeSingleton>,
        Ghost(run): Ghost<Run>,
    )
        requires
            state::reached(start, *old(self), *old(block_tree), run),
            tree::initialized(run.tree),
        ensures
            state::reached(start, *final(self), *final(block_tree), proposing::moved_on(run, view_info)),
            tree::initialized(proposing::moved_on(run, view_info).tree),
    {
        let view = view_info.view;
        self.view_info = view_info;
        self.proposal_status = ProposalStatus::WaitingForProposal;
        self.recovery_state = RecoveryState::Idle;
        match block_tree.validator_set_state() {
            Ok(state) => {
                self.phase_vote_collectors = ActiveCollectorPair::new(
                    self.config.chain_id,
                    view,
                    &state,
                );
            },
            Err(_) => {},
        }
        self.forget_old_proposals();
        self.proposal_deferred = false;
        let ghost fresh = state::now_holding(
            run,
            HsView {
                view_info,
                status: ProposalStatus::WaitingForProposal,
                recovery: RecoveryView::Idle,
                collectors: collectors::fresh_collectors(
                    run.hs.chain_id,
                    view_info.view,
                    tree::validators_of(run.tree),
                ),
                seen: state::remembered(run.hs.seen, view_info.view),
                proposal_deferred: false,
                ..run.hs
            },
        );
        assert(state::reached(start, *self, *block_tree, fresh));
        let ghost t0 = *block_tree;
        let _ = block_tree.set_highest_view_entered(view);
        let ghost deeds = variables::written(WriteOp::SetHighestViewEntered(view));
        let ghost t1 = *block_tree;
        proof {
            state::lemma_did(start, *self, t0, t1, fresh, deeds);
        }
        block_tree.publish(Event::StartView { view });
        proof {
            state::lemma_did(
                start,
                *self,
                t1,
                *block_tree,
                state::did(fresh, deeds),
                seq![Deed::Other(Effect::Publish(Event::StartView { view }))],
            );
        }
    }

    fn nudge(
        &self,
        highest_pc: PhaseCertificate,
        block_tree: &mut BlockTreeSingleton,
        Ghost(start): Ghost<BlockTreeSingleton>,
        Ghost(run): Ghost<Run>,
    )
        requires
            state::reached(start, *self, *old(block_tree), run),
            tree::initialized(run.tree),
            run.tree.highest_pc == Some(highest_pc),
        ensures
            state::reached(start, *self, *final(block_tree), proposing::nudged(run)),
            tree::initialized(proposing::nudged(run).tree),
    {
        let nudge = Nudge {
            chain_id: self.config.chain_id,
            view: self.view_info.view,
            justify: highest_pc,
        };
        let ghost t0 = *block_tree;
        block_tree.emit(Effect::Broadcast(HotStuffMessage::Nudge(nudge.clone())));
        let ghost deeds = seq![Deed::Other(Effect::Broadcast(HotStuffMessage::Nudge(nudge)))];
        let ghost t1 = *block_tree;
        proof {
            state::lemma_did(start, *self, t0, t1, run, deeds);
        }
        block_tree.publish(Event::Nudge { nudge });
        proof {
            state::lemma_did(
                start,
                *self,
                t1,
                *block_tree,
                state::did(run, deeds),
                seq![Deed::Other(Effect::Publish(Event::Nudge { nudge }))],
            );
        }
    }

    /// Propose a block of the tree again.
    fn propose_known(
        &mut self,
        block: Block,
        hash: CryptoHash,
        tc: Option<TimeoutCertificate>,
        block_tree: &mut BlockTreeSingleton,
        Ghost(start): Ghost<BlockTreeSingleton>,
        Ghost(run): Ghost<Run>,
    )
        requires
            state::reached(start, *old(self), *old(block_tree), run),
            tree::initialized(run.tree),
        ensures
            state::reached(
                start,
                *final(self),
                *final(block_tree),
                proposing::proposed(
                    run,
                    proposing::proposal_for(run.hs, block, tc, None),
                    proposing::changes_validators(run.tree, hash),
                ),
            ),
            tree::initialized(
                proposing::proposed(
                    run,
                    proposing::proposal_for(run.hs, block, tc, None),
                    proposing::changes_validators(run.tree, hash),
                ).tree,
            ),
    {
        let has_updates = match block_tree.validator_set_updates_status(&hash) {
            Ok(ValidatorSetUpdatesStatus::NoUpdates) => false,
            _ => true,
        };
        let proposal = Proposal {
            chain_id: self.config.chain_id,
            view: self.view_info.view,
            block,
            tc,
            nec: None,
        };
        self.propose(proposal, has_updates, block_tree, Ghost(start), Ghost(run));
    }

    fn send_to_all(
        &self,
        recipients: &Vec<VerifyingKey>,
        count: u64,
        request: &ProposalRequest,
        block_tree: &mut BlockTreeSingleton,
    )
        ensures
            ({
                let chosen = if count < recipients@.len() {
                    recipients@.take(count as int)
                } else {
                    recipients@
                };
                tree::advanced(
                    *old(block_tree),
                    *final(block_tree),
                    chosen.map_values(
                        |key: VerifyingKey|
                            Deed::Other(
                                Effect::Send(key, HotStuffMessage::ProposalRequest(*request)),
                            ),
                    ),
                )
            }),
            final(block_tree).gap_watch == old(block_tree).gap_watch,
    {
        let ghost deed = |key: VerifyingKey|
            Deed::Other(Effect::Send(key, HotStuffMessage::ProposalRequest(*request)));
        let mut i: usize = 0;
        proof {
            tree::lemma_advanced_refl(*block_tree);
            assert(recipients@.take(0).map_values(deed) =~= Seq::<Deed>::empty());
        }
        while i < recipients.len() && (i as u64) < count
            invariant
                i <= recipients@.len(),
                i <= count,
                deed == (|key: VerifyingKey|
                    Deed::Other(Effect::Send(key, HotStuffMessage::ProposalRequest(*request)))),
                tree::advanced(
                    *old(block_tree),
                    *block_tree,
                    recipients@.take(i as int).map_values(deed),
                ),
                block_tree.gap_watch == old(block_tree).gap_watch,
            decreases recipients@.len() - i,
        {
            let ghost before = *block_tree;
            let key = recipients[i];
            block_tree.emit(Effect::Send(key, HotStuffMessage::ProposalRequest(request.clone())));
            proof {
                tree::lemma_advanced_trans(
                    *old(block_tree),
                    before,
                    *block_tree,
                    recipients@.take(i as int).map_values(deed),
                    seq![deed(key)],
                );
                assert(recipients@.take(i + 1).map_values(deed) =~= recipients@.take(
                    i as int,
                ).map_values(deed) + seq![deed(key)]);
            }
            i = i + 1;
        }
        proof {
            if !(count < recipients@.len()) {
                assert(recipients@.take(i as int) =~= recipients@);
            }
        }
    }

    /// Ask for the block of a timed-out view, and for no-endorsements of it.
    fn recover(
        &mut self,
        tc: &TimeoutCertificate,
        tip: &TipInfo,
        block_tree: &mut BlockTreeSingleton,
        Ghost(start): Ghost<BlockTreeSingleton>,
        Ghost(run): Ghost<Run>,
    )
        requires
            state::reached(start, *old(self), *old(block_tree), run),
            tree::initialized(run.tree),
        ensures
            state::reached(start, *final(self), *final(block_tree), proposing::recovering(run, *tc, *tip)),
            proposing::recovering(run, *tc, *tip).tree == run.tree,
    {
        let validator_set = match block_tree.committed_validator_set() {
            Ok(validator_set) => validator_set,
            Err(_) => ValidatorSet::new(),
        };
        assert(validator_set@ == tree::validators_of(run.tree).committed);
        let total: u64 = #[verifier::truncate] (validator_set.total_power().0 as u64);
        let faulty: u64 = if total > 0 {
            (total - 1) / 3
        } else {
            0
        };
        let count: u64 = faulty + 1;
        let view = self.view_info.view;
        let chain_id = self.config.chain_id;
        let mut recipients = other_validators(&validator_set, &self.config.keypair.public());
        shuffle(&mut recipients, view.0);
        assert(count == proposing::asked_count(validator_set::power_sum(validator_set@) as u128));
        let request = ProposalRequest { chain_id, view, tc: tc.clone() };
        let ghost t0 = *block_tree;
        self.send_to_all(&recipients, count, &request, block_tree);
        let ghost requested = proposing::asked(run).map_values(
            |key: VerifyingKey|
                Deed::Other(
                    Effect::Send(
                        key,
                        HotStuffMessage::ProposalRequest(
                            ProposalRequest { chain_id, view, tc: *tc },
                        ),
                    ),
                ),
        );
        let ghost t1 = *block_tree;
        proof {
            assert(proposing::asked(run) == if count < recipients@.len() {
                recipients@.take(count as int)
            } else {
                recipients@
            });
            assert(requested =~= proposing::asked(run).map_values(
                |key: VerifyingKey|
                    Deed::Other(Effect::Send(key, HotStuffMessage::ProposalRequest(request))),
            ));
            state::lemma_did(start, *self, t0, t1, run, requested);
            lemma_sends_keep_tree(run.tree, proposing::asked(run), request);
        }
        let ne_request = NERequest { chain_id, view, tc: tc.clone() };
        block_tree.emit(Effect::Broadcast(HotStuffMessage::NERequest(ne_request)));
        let ghost broadcast = Deed::Other(
            Effect::Broadcast(HotStuffMessage::NERequest(NERequest { chain_id, view, tc: *tc })),
        );
        proof {
            state::lemma_did(
                start,
                *self,
                t1,
                *block_tree,
                state::did(run, requested),
                seq![broadcast],
            );
            tree::lemma_replay_one(state::did(run, requested).tree, broadcast);
        }
        let ne_collector = NECollector::new(view, tip.block_justify.view, validator_set);
        self.recovery_state = RecoveryState::Recovering { tc: tc.clone(), ne_collector };
        assert(self@ =~= proposing::recovering(run, *tc, *tip).hs);
    }

    /// Answer to the timeout of the previous view. Returns whether a block was proposed.
    fn create_proposal_based_on_tc(
        &mut self,
        tc: &TimeoutCertificate,
        block_tree: &mut BlockTreeSingleton,
        Ghost(start): Ghost<BlockTreeSingleton>,
        Ghost(run): Ghost<Run>,
    ) -> (r: bool)
        requires
            state::reached(start, *old(self), *old(block_tree), run),
            tree::initialized(run.tree),
        ensures
            state::reached(start, *final(self), *final(block_tree), proposing::answered_timeout(run, *tc).0),
            tree::initialized(proposing::answered_timeout(run, *tc).0.tree),
            r == proposing::answered_timeout(run, *tc).1,
    {
        if !tc.high_tip_is_winner {
            return false;
        }
        match &tc.high_tip {
            Some(tip) => match block_tree.block(&tip.block_hash) {
                Ok(Some(block)) => {
                    self.propose_known(
                        block,
                        tip.block_hash,
                        Some(tc.clone()),
                        block_tree,
                        Ghost(start),
                        Ghost(run),
                    );
                    true
                },
                _ => {
                    self.recover(tc, tip, block_tree, Ghost(start), Ghost(run));
                    false
                },
            },
            None => false,
        }
    }

    fn start_from_highest(
        &mut self,
        block_tree: &mut BlockTreeSingleton,
        Ghost(start): Ghost<BlockTreeSingleton>,
        Ghost(run): Ghost<Run>,
    ) -> (r: Option<ProductionPlan>)
        requires
            state::reached(start, *old(self), *old(block_tree), run),
            tree::initialized(run.tree),
        ensures
            state::reached(start, *final(self), *final(block_tree), proposing::started_from_highest(run).0),
            tree::initialized(proposing::started_from_highest(run).0.tree),
            r == proposing::started_from_highest(run).1,
    {
        match block_tree.highest_pc() {
            Ok(pc) => {
                if pc.phase.is_generic() || pc.phase.is_decide() {
                    self.plan_on_highest(Occasion::Lead, block_tree, Ghost(start), Ghost(run))
                } else {
                    self.nudge(pc, block_tree, Ghost(start), Ghost(run));
                    None
                }
            },
            Err(_) => None,
        }
    }

    fn take_lead(
        &mut self,
        block_tree: &mut BlockTreeSingleton,
        Ghost(start): Ghost<BlockTreeSingleton>,
        Ghost(run): Ghost<Run>,
    ) -> (r: Result<Option<ProductionPlan>, BlockTreeError>)
        requires
            state::reached(start, *old(self), *old(block_tree), run),
            tree::initialized(run.tree),
        ensures
            state::reached(start, *final(self), *final(block_tree), proposing::took_lead(run).0),
            tree::initialized(proposing::took_lead(run).0.tree),
            r == proposing::took_lead(run).1,
    {
        match repropose_block(self.view_info.view, block_tree) {
            Ok(Some(hash)) => match block_tree.block(&hash) {
                Ok(Some(block)) => {
                    self.propose_known(block, hash, None, block_tree, Ghost(start), Ghost(run));
                    Ok(None)
                },
                _ => Err(BlockTreeError::BlockExpectedButNotFound { block: hash }),
            },
            Ok(None) => {
                let mut has_proposed = false;
                let ghost mut current = run;
                match block_tree.highest_tc() {
                    Ok(Some(tc)) => {
                        if tc.view.0 < u64::MAX && tc.view.0 + 1 == self.view_info.view.0 {
                            has_proposed = self.create_proposal_based_on_tc(
                                &tc,
                                block_tree,
                                Ghost(start),
                                Ghost(run),
                            );
                            proof {
                                current = proposing::answered_timeout(run, tc).0;
                            }
                        }
                    },
                    _ => {},
                }
                if has_proposed {
                    Ok(None)
                } else {
                    Ok(self.start_from_highest(block_tree, Ghost(start), Ghost(current)))
                }
            },
            Err(e) => Err(e),
        }
    }

    /// Leave the current view for `new_view_info`, and propose or nudge where the replica leads the
    /// new view. Returns the block that the application is to produce, if there is one.
    ///
    /// Called for the current view, it tries a put-off proposal again.
    pub fn prepare_view<R: Roles>(
        &mut self,
        new_view_info: ViewInfo,
        block_tree: &mut BlockTreeSingleton,
        roles: &R,
    ) -> (r: Result<Option<ProductionPlan>, BlockTreeError>)
        requires
            old(self).wf(),
            tree::initialized(old(block_tree)@),
        ensures
            state::reached(
                *old(block_tree),
                *final(self),
                *final(block_tree),
                proposing::entered(state::begin(*old(self), *old(block_tree)), *roles, new_view_info).0,
            ),
            r == proposing::entered(state::begin(*old(self), *old(block_tree)), *roles, new_view_info).1,
            tree::initialized(final(block_tree)@),
    {
        let ghost start = *block_tree;
        let ghost run = state::begin(*self, *block_tree);
        proof {
            state::lemma_begin(*self, *block_tree);
        }
        if self.proposal_deferred && new_view_info.view.0 == self.view_info.view.0 {
            return Ok(self.retry_proposal(block_tree, roles, Ghost(start), Ghost(run)));
        }
        self.leave_view(block_tree, roles, Ghost(start), Ghost(run));
        let ghost run1 = proposing::left_view(run, *roles);
        self.move_on(new_view_info, block_tree, Ghost(start), Ghost(run1));
        let ghost run2 = proposing::moved_on(run1, new_view_info);
        if self.is_leader(block_tree, roles, Ghost(start), Ghost(run2)) {
            self.take_lead(block_tree, Ghost(start), Ghost(run2))
        } else {
            Ok(None)
        }
    }

    /// Do what is to be done when the pacemaker moves on: see [`Self::prepare_view`] and
    /// [`Self::complete_proposal`], between which the application produces a block.
    pub fn enter_view<R: Roles, A: App>(
        &mut self,
        new_view_info: ViewInfo,
        block_tree: &mut BlockTreeSingleton,
        app: &mut A,
        roles: &R,
    ) -> (r: Result<(), HotStuffError>)
        requires
            old(self).wf(),
            tree::initialized(old(block_tree)@),
        ensures
            view_entered(
                *old(self),
                *old(block_tree),
                *final(self),
                *final(block_tree),
                *roles,
                new_view_info,
                r,
            ),
            tree::initialized(final(block_tree)@),
    {
        let ghost start = *block_tree;
        let ghost run = proposing::entered(state::begin(*self, *block_tree), *roles, new_view_info).0;
        match self.prepare_view(new_view_info, block_tree, roles) {
            Err(e) => Err(HotStuffError::BlockTreeError(e)),
            Ok(None) => Ok(()),
            Ok(Some(plan)) => {
                let response = match self.production_request(&plan, block_tree) {
                    Ok(request) => app.produce_block(request),
                    Err(e) => {
                        return Err(HotStuffError::BlockTreeError(e));
                    },
                };
                self.finish_proposal(
                    plan,
                    response,
                    block_tree,
                    roles,
                    Ghost(start),
                    Ghost(run),
                );
                Ok(())
            },
        }
    }
}

/// Messages leave the tree as it is.
proof fn lemma_sends_keep_tree(
    tree: crate::block_tree::store::TreeView,
    keys: Seq<VerifyingKey>,
    request: ProposalRequest,
)
    ensures
        tree::replay(
            tree,
            keys.map_values(
                |key: VerifyingKey|
                    Deed::Other(Effect::Send(key, HotStuffMessage::ProposalRequest(request))),
            ),
        ) == tree,
    decreases keys.len(),
{
    let deed = |key: VerifyingKey|
        Deed::Other(Effect::Send(key, HotStuffMessage::ProposalRequest(request)));
    if keys.len() > 0 {
        lemma_sends_keep_tree(tree, keys.drop_last(), request);
        assert(keys.map_values(deed).drop_last() =~= keys.drop_last().map_values(deed));
    }
}

} // verus!

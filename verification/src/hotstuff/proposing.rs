//! Entering a view and proposing in it.

use vstd::prelude::*;

use crate::app::ProduceBlockResponse;
use crate::block_tree::commit::CommittedBlock;
use crate::block_tree::errors::BlockTreeError;
use crate::block_tree::invariants;
use crate::block_tree::store::TreeView;
use crate::block_tree::tree;
use crate::block_tree::tree::BlockTreeSingleton;
use crate::block_tree::updates;
use crate::block_tree::updates::UpdateResult;
use crate::block_tree::variables;
use crate::block_tree::write_batch::{BlockTreeWriteBatch, WriteOp};
use crate::effects::{Deed, Effect};
use crate::events::Event;
use crate::hotstuff::acting;
use crate::hotstuff::acting::is_block_missing;
use crate::hotstuff::body_push;
use crate::hotstuff::body_push::{body_len, should_push_body};
use crate::hotstuff::collectors;
use crate::hotstuff::collectors::NEView;
use crate::hotstuff::messages;
use crate::hotstuff::messages::{
    BlockDataResponse,
    HotStuffMessage,
    NERequest,
    NewView,
    Nudge,
    Proposal,
    ProposalHeader,
    ProposalRequest,
};
use crate::hotstuff::state;
use crate::hotstuff::state::{HotStuff, HsView, ProposalStatus, RecoveryView, Run, SeenProposal};
use crate::hotstuff::types::{NoEndorsementCertificate, Phase, PhaseCertificate};
use crate::hotstuff::voting;
use crate::pacemaker::{TimeoutCertificate, TipInfo, ViewInfo};
use crate::roles::Roles;
use crate::types::block;
use crate::types::block::Block;
use crate::types::data_types::{BlockHeight, CryptoHash, Power, VerifyingKey};
use crate::types::update_sets::AppStateUpdates;
use crate::types::validator_set;
use crate::types::validator_set::{ValidatorSet, ValidatorSetUpdates, ValidatorSetUpdatesStatus};

verus! {

/// The deeds of sending a body to every validator but `me`.
pub open spec fn push_deeds(
    validators: Seq<(VerifyingKey, Power)>,
    me: VerifyingKey,
    response: BlockDataResponse,
) -> Seq<Deed>
    decreases validators.len(),
{
    if validators.len() == 0 {
        Seq::empty()
    } else {
        let before = push_deeds(validators.drop_last(), me, response);
        if validators.last().0 == me {
            before
        } else {
            before + voting::sent(validators.last().0, HotStuffMessage::BlockDataResponse(response))
        }
    }
}

/// A proposal announced by its header: the block is kept to serve its body, the header is
/// broadcast, and a small body is sent along. Then observers are told.
pub open spec fn proposed(run: Run, proposal: Proposal, changes_validators: bool) -> Run {
    let kept = state::now_holding(
        run,
        HsView {
            pending_bodies: run.hs.pending_bodies.insert(proposal.block.hash, proposal.block),
            ..run.hs
        },
    );
    let announced = state::did(
        kept,
        seq![
            Deed::Other(Effect::StoreBlockForServing(proposal.block)),
            Deed::Other(
                Effect::Broadcast(
                    HotStuffMessage::ProposalHeader(messages::header_of(proposal, changes_validators)),
                ),
            ),
        ],
    );
    let pushed = if body_push::pushes(body_push::body_size(proposal.block.data), run.hs.push_limit) {
        state::did(
            announced,
            push_deeds(
                tree::validators_of(run.tree).committed,
                run.hs.keypair.public_key(),
                BlockDataResponse { view: proposal.view, block: proposal.block },
            ),
        )
    } else {
        announced
    };
    state::told(pushed, Event::Propose { proposal })
}

/// The proposal of a participant in its view.
pub open spec fn proposal_for(
    hs: HsView,
    block: Block,
    tc: Option<TimeoutCertificate>,
    nec: Option<NoEndorsementCertificate>,
) -> Proposal {
    Proposal { chain_id: hs.chain_id, view: hs.view_info.view, block, tc, nec }
}

/// Whether a block of the tree changes the validator set.
pub open spec fn changes_validators(tree: TreeView, block: CryptoHash) -> bool {
    tree::updates_status(tree, block) != ValidatorSetUpdatesStatus::NoUpdates
}

/// The phase that a block is first voted for in.
pub open spec fn first_phase(changes_validators: bool) -> Phase {
    if changes_validators {
        Phase::Prepare
    } else {
        Phase::Generic
    }
}

/// A leader handling its own header at once: it takes note of it and votes.
pub open spec fn handled_inline<R: Roles>(
    run: Run,
    roles: R,
    block: Block,
    changes_validators: bool,
    locked: bool,
) -> Run {
    let me = run.hs.keypair.public_key();
    let view = run.hs.view_info.view;
    let noted = state::now_holding(
        run,
        HsView {
            inline_header: Some(block.hash),
            seen: if state::recalled(run.hs.seen, view, me) is Some {
                run.hs.seen
            } else {
                run.hs.seen.push(SeenProposal { view, leader: me, hash: block.hash })
            },
            status: state::heard(run.hs.status, me),
            ..run.hs
        },
    );
    let safe = if locked {
        noted
    } else {
        state::did(noted, updates::locks_only_deeds(noted.tree, block.justify, roles))
    };
    if voting::may_vote(safe, roles, block.justify) {
        voting::voted(safe, roles, block.hash, first_phase(changes_validators), None)
    } else {
        safe
    }
}

/// A leader proposing a block that it produced. The block and what its certificate brings about are
/// written in one batch before the header leaves.
pub open spec fn led<R: Roles>(
    run: Run,
    roles: R,
    block: Block,
    app_state_updates: Option<AppStateUpdates>,
    validator_set_updates: Option<ValidatorSetUpdates>,
    is_retry: bool,
) -> Run {
    let changes = updates::insertion(run.tree, block, app_state_updates, validator_set_updates);
    let (after, result) = acting::updated(run, roles, changes, block.justify);
    let (stored, committed, missing) = match result {
        Ok(committed) => (after, committed, false),
        Err(e) => (
            state::did(after, seq![Deed::Persist(changes)]),
            Seq::<CommittedBlock>::empty(),
            acting::misses_block(Some(e)),
        ),
    };
    let flagged = state::now_holding(
        stored,
        HsView { sync_needed: stored.hs.sync_needed || (is_retry && missing), ..stored.hs },
    );
    let noted = state::told(flagged, Event::InsertBlock { block });
    let proposal = proposal_for(noted.hs, block, None, None);
    if run.hs.defer_feed {
        acting::made_known(
            handled_inline(
                proposed(noted, proposal, validator_set_updates is Some),
                roles,
                block,
                validator_set_updates is Some,
                result is Ok,
            ),
            committed,
        )
    } else {
        proposed(acting::made_known(noted, committed), proposal, validator_set_updates is Some)
    }
}

/// Why a block is to be produced.
pub enum Occasion {
    /// The replica leads the view that it entered.
    Lead,
    /// The parent of a put-off proposal has arrived.
    Retry,
    /// The block of a timed-out view may be passed over.
    Recovery { tc: TimeoutCertificate, nec: NoEndorsementCertificate },
}

/// What block is to be produced.
pub struct ProductionPlan {
    pub occasion: Occasion,
    pub parent: Option<CryptoHash>,
    pub height: BlockHeight,
    pub justify: PhaseCertificate,
}

/// The block that comes out of a plan.
pub open spec fn planned_block(plan: ProductionPlan, response: ProduceBlockResponse) -> Block {
    block::block_of(plan.height, plan.justify, response.data_hash, response.data)
}

/// What follows when the application has produced the planned block.
pub open spec fn completed<R: Roles>(
    run: Run,
    roles: R,
    plan: ProductionPlan,
    response: ProduceBlockResponse,
) -> Run {
    let block = planned_block(plan, response);
    match plan.occasion {
        Occasion::Lead => led(
            run,
            roles,
            block,
            response.app_state_updates,
            response.validator_set_updates,
            false,
        ),
        Occasion::Retry => led(
            run,
            roles,
            block,
            response.app_state_updates,
            response.validator_set_updates,
            true,
        ),
        Occasion::Recovery { tc, nec } => proposed(
            run,
            proposal_for(run.hs, block, Some(tc), Some(nec)),
            response.validator_set_updates is Some,
        ),
    }
}

/// Where a block on top of `justify` goes. `None` if the parent is not in the tree, or if there is
/// no height above it.
pub open spec fn place_above(tree: TreeView, justify: PhaseCertificate) -> Option<
    (Option<CryptoHash>, BlockHeight),
> {
    if justify.is_genesis() {
        Some((None, BlockHeight(0)))
    } else if tree.blocks.contains_key(justify.block) && tree.blocks[justify.block].height.0
        < u64::MAX {
        Some(
            (
                Some(justify.block),
                BlockHeight((tree.blocks[justify.block].height.0 + 1) as u64),
            ),
        )
    } else {
        None
    }
}

/// A leader that can extend its highest certificate plans a block; one that cannot puts the
/// proposal off.
pub open spec fn planned(run: Run, occasion: Occasion) -> (Run, Option<ProductionPlan>) {
    let justify = run.tree.highest_pc->0;
    match place_above(run.tree, justify) {
        Some((parent, height)) => (
            run,
            Some(ProductionPlan { occasion, parent, height, justify }),
        ),
        None => (state::now_holding(run, HsView { proposal_deferred: true, ..run.hs }), None),
    }
}

/// Whether a participant is a leader of its view.
pub open spec fn leads<R: Roles>(run: Run, roles: R) -> bool {
    roles.proposes(
        run.hs.keypair.public_key(),
        run.hs.view_info.view,
        tree::validators_of(run.tree),
        tree::reputation_of(run.tree).0,
    )
}

/// Whether a block is proposed on top of a certificate of this phase, rather than a nudge sent.
pub open spec fn calls_for_block(phase: Phase) -> bool {
    phase == Phase::Generic || phase == Phase::Decide
}

/// A put-off proposal tried again.
pub open spec fn retried<R: Roles>(run: Run, roles: R) -> (Run, Option<ProductionPlan>) {
    let cleared = state::now_holding(run, HsView { proposal_deferred: false, ..run.hs });
    if calls_for_block((run.tree.highest_pc->0).phase) && leads(cleared, roles) {
        planned(cleared, Occasion::Retry)
    } else {
        (cleared, None)
    }
}

/// A view left: the leaders of the next one hear of the highest certificate.
pub open spec fn left_view<R: Roles>(run: Run, roles: R) -> Run {
    let new_view = NewView {
        chain_id: run.hs.chain_id,
        view: run.hs.view_info.view,
        highest_pc: run.tree.highest_pc->0,
    };
    let (first, second) = roles.next_leaders(
        new_view,
        tree::validators_of(run.tree),
        tree::reputation_of(run.tree).0,
    );
    let informed = state::did(run, voting::sent(first, HotStuffMessage::NewView(new_view)));
    let all_informed = match second {
        Some(second) => state::did(informed, voting::sent(second, HotStuffMessage::NewView(new_view))),
        None => informed,
    };
    state::told(all_informed, Event::NewView { new_view })
}

/// A view entered: what belongs to the last view is forgotten, and the view is recorded.
pub open spec fn moved_on(run: Run, view_info: ViewInfo) -> Run {
    let fresh = state::now_holding(
        run,
        HsView {
            view_info,
            status: ProposalStatus::WaitingForProposal,
            recovery: RecoveryView::Idle,
            collectors: collectors::fresh_collectors(
                run.hs.chain_id,
                view_info.view,
                tree::validators_of(run.tree),
            ),
            seen: state::remembered(run.hs.seen, view_info.view),
            proposal_deferred: false,
            ..run.hs
        },
    );
    state::told(
        state::did(fresh, variables::written(WriteOp::SetHighestViewEntered(view_info.view))),
        Event::StartView { view: view_info.view },
    )
}

/// The keys of the validators but `me`.
pub open spec fn others(validators: Seq<(VerifyingKey, Power)>, me: VerifyingKey) -> Seq<
    VerifyingKey,
>
    decreases validators.len(),
{
    if validators.len() == 0 {
        Seq::empty()
    } else {
        let before = others(validators.drop_last(), me);
        if validators.last().0 == me {
            before
        } else {
            before.push(validators.last().0)
        }
    }
}

/// The multiplier that spreads view numbers over places.
pub const SHUFFLE_MULTIPLIER: u64 = 6364136223846793005;

/// The place that the key at place `i` changes with.
pub open spec fn shuffle_place(seed: u64, i: int) -> int {
    (seed.wrapping_mul(SHUFFLE_MULTIPLIER).wrapping_add(i as u64) as int) % (i + 1)
}

/// `keys` with two places swapped.
pub open spec fn swapped(keys: Seq<VerifyingKey>, i: int, j: int) -> Seq<VerifyingKey> {
    keys.update(i, keys[j]).update(j, keys[i])
}

/// `keys` shuffled from the place `i` downwards.
pub open spec fn shuffled(keys: Seq<VerifyingKey>, seed: u64, i: int) -> Seq<VerifyingKey>
    decreases i,
{
    if i < 1 {
        keys
    } else {
        shuffled(swapped(keys, i, shuffle_place(seed, i)), seed, i - 1)
    }
}

/// How many validators are asked for a block: one more than can be faulty.
pub open spec fn asked_count(total_power: u128) -> int {
    let total = total_power as u64;
    if total > 0 {
        (total - 1) / 3 + 1
    } else {
        1
    }
}

/// The validators that are asked for the block of a timed-out view.
pub open spec fn asked(run: Run) -> Seq<VerifyingKey> {
    let validators = tree::validators_of(run.tree).committed;
    let keys = others(validators, run.hs.keypair.public_key());
    let order = shuffled(keys, run.hs.view_info.view.0, keys.len() - 1);
    let count = asked_count(validator_set::power_sum(validators) as u128);
    if count < order.len() {
        order.take(count)
    } else {
        order
    }
}

/// A leader that lacks the block of a timed-out view: it asks some validators for the block, and
/// all of them for a no-endorsement of it.
pub open spec fn recovering(run: Run, tc: TimeoutCertificate, tip: TipInfo) -> Run {
    let view = run.hs.view_info.view;
    let chain_id = run.hs.chain_id;
    let requested = state::did(
        run,
        asked(run).map_values(
            |key: VerifyingKey|
                Deed::Other(
                    Effect::Send(
                        key,
                        HotStuffMessage::ProposalRequest(ProposalRequest { chain_id, view, tc }),
                    ),
                ),
        ),
    );
    let all_requested = state::did(
        requested,
        seq![
            Deed::Other(
                Effect::Broadcast(HotStuffMessage::NERequest(NERequest { chain_id, view, tc })),
            ),
        ],
    );
    let validators = tree::validators_of(run.tree).committed;
    state::now_holding(
        all_requested,
        HsView {
            recovery: RecoveryView::Recovering {
                tc,
                collector: NEView {
                    view,
                    high_tip_qc_view: tip.block_justify.view,
                    validators,
                    signatures: collectors::no_signatures(validators.len()),
                    voters: Seq::empty(),
                },
            },
            ..run.hs
        },
    )
}

/// A leader that answers to the timeout of the previous view: it proposes the block of the high tip
/// again if it has it, and looks for it otherwise. Whether it proposed.
pub open spec fn answered_timeout(run: Run, tc: TimeoutCertificate) -> (Run, bool) {
    match tc.high_tip {
        Some(tip) => if !tc.high_tip_is_winner {
            (run, false)
        } else if run.tree.blocks.contains_key(tip.block_hash) {
            (
                proposed(
                    run,
                    proposal_for(run.hs, run.tree.blocks[tip.block_hash], Some(tc), None),
                    changes_validators(run.tree, tip.block_hash),
                ),
                true,
            )
        } else {
            (recovering(run, tc, tip), false)
        },
        None => (run, false),
    }
}

/// A leader that nudges.
pub open spec fn nudged(run: Run) -> Run {
    let nudge = Nudge {
        chain_id: run.hs.chain_id,
        view: run.hs.view_info.view,
        justify: run.tree.highest_pc->0,
    };
    state::told(
        state::did(run, seq![Deed::Other(Effect::Broadcast(HotStuffMessage::Nudge(nudge)))]),
        Event::Nudge { nudge },
    )
}

/// A leader that starts from its highest certificate.
pub open spec fn started_from_highest(run: Run) -> (Run, Option<ProductionPlan>) {
    if calls_for_block((run.tree.highest_pc->0).phase) {
        planned(run, Occasion::Lead)
    } else {
        (nudged(run), None)
    }
}

/// Whether the previous view of a participant timed out.
pub open spec fn previous_view_timed_out(run: Run) -> bool {
    run.tree.highest_tc is Some && (run.tree.highest_tc->0).view.0 + 1 == run.hs.view_info.view.0
}

/// A leader at work in the view that it entered: the block that it plans to produce, or an error.
pub open spec fn took_lead(run: Run) -> (Run, Result<Option<ProductionPlan>, BlockTreeError>) {
    match invariants::block_to_repropose(run.tree, run.hs.view_info.view) {
        Some(hash) => if run.tree.blocks.contains_key(hash) {
            (
                proposed(
                    run,
                    proposal_for(run.hs, run.tree.blocks[hash], None, None),
                    changes_validators(run.tree, hash),
                ),
                Ok(None),
            )
        } else {
            (run, Err(BlockTreeError::BlockExpectedButNotFound { block: hash }))
        },
        None => {
            let (after, has_proposed) = if previous_view_timed_out(run) {
                answered_timeout(run, run.tree.highest_tc->0)
            } else {
                (run, false)
            };
            if has_proposed {
                (after, Ok(None))
            } else {
                let (end, plan) = started_from_highest(after);
                (end, Ok(plan))
            }
        },
    }
}

/// What follows when the pacemaker moves on to `view_info`: where that leads, and the block that is
/// then to be produced, or an error.
pub open spec fn entered<R: Roles>(run: Run, roles: R, view_info: ViewInfo) -> (
    Run,
    Result<Option<ProductionPlan>, BlockTreeError>,
) {
    if run.hs.proposal_deferred && view_info.view == run.hs.view_info.view {
        let (after, plan) = retried(run, roles);
        (after, Ok(plan))
    } else {
        let after = moved_on(left_view(run, roles), view_info);
        if leads(after, roles) {
            took_lead(after)
        } else {
            (after, Ok(None))
        }
    }
}

/// The keys of the validators but `me`.
pub(crate) fn other_validators(validator_set: &ValidatorSet, me: &VerifyingKey) -> (r: Vec<VerifyingKey>)
    ensures
        r@ == others(validator_set@, *me),
{
    let mut r: Vec<VerifyingKey> = Vec::new();
    let mut i: usize = 0;
    assert(validator_set@.take(0) =~= Seq::<(VerifyingKey, Power)>::empty());
    while i < validator_set.len()
        invariant
            i <= validator_set@.len(),
            r@ == others(validator_set@.take(i as int), *me),
        decreases validator_set@.len() - i,
    {
        assert(validator_set@.take(i + 1).drop_last() =~= validator_set@.take(i as int));
        let key = validator_set.key_at(i);
        if key != *me {
            r.push(key);
        }
        i = i + 1;
    }
    assert(validator_set@.take(i as int) =~= validator_set@);
    r
}

/// Shuffle keys by the number of the view.
pub(crate) fn shuffle(keys: &mut Vec<VerifyingKey>, seed: u64)
    ensures
        final(keys)@ == shuffled(old(keys)@, seed, old(keys)@.len() - 1),
{
    if keys.len() == 0 {
        return;
    }
    let mut i: usize = keys.len() - 1;
    while i >= 1
        invariant
            i < keys@.len(),
            shuffled(keys@, seed, i as int) == shuffled(old(keys)@, seed, old(keys)@.len() - 1),
        decreases i,
    {
        let len: usize = keys.len();
        assert(i < len);
        let j: usize = (seed.wrapping_mul(SHUFFLE_MULTIPLIER).wrapping_add(i as u64) % (i as u64
            + 1)) as usize;
        assert(j == shuffle_place(seed, i as int));
        let a = keys[i];
        let b = keys[j];
        let ghost before = keys@;
        keys.set(i, b);
        keys.set(j, a);
        assert(keys@ =~= swapped(before, i as int, j as int));
        i = i - 1;
    }
}

impl HotStuff {
    /// Announce a proposal by its header.
    pub(crate) fn propose(
        &mut self,
        proposal: Proposal,
        has_updates: bool,
        block_tree: &mut BlockTreeSingleton,
        Ghost(start): Ghost<BlockTreeSingleton>,
        Ghost(run): Ghost<Run>,
    )
        requires
            state::reached(start, *old(self), *old(block_tree), run),
            tree::initialized(run.tree),
        ensures
            state::reached(
                start,
                *final(self),
                *final(block_tree),
                proposed(run, proposal, has_updates),
            ),
            tree::initialized(proposed(run, proposal, has_updates).tree),
    {
        self.pending_bodies.insert(proposal.block.hash, proposal.block.clone());
        let ghost kept = state::now_holding(
            run,
            HsView {
                pending_bodies: run.hs.pending_bodies.insert(proposal.block.hash, proposal.block),
                ..run.hs
            },
        );
        assert(state::reached(start, *self, *block_tree, kept));
        let ghost t0 = *block_tree;
        block_tree.emit(Effect::StoreBlockForServing(proposal.block.clone()));
        let ghost t1 = *block_tree;
        let header = ProposalHeader::from_proposal(&proposal, has_updates);
        block_tree.emit(Effect::Broadcast(HotStuffMessage::ProposalHeader(header)));
        let ghost stored = Deed::Other(Effect::StoreBlockForServing(proposal.block));
        let ghost broadcast = Deed::Other(
            Effect::Broadcast(HotStuffMessage::ProposalHeader(messages::header_of(proposal, has_updates))),
        );
        let ghost mut current = state::did(kept, seq![stored, broadcast]);
        proof {
            tree::lemma_advanced_trans(
                t0,
                t1,
                *block_tree,
                seq![stored],
                seq![broadcast],
            );
            assert(seq![stored] + seq![broadcast] =~= seq![stored, broadcast]);
            state::lemma_did(start, *self, t0, *block_tree, kept, seq![stored, broadcast]);
        }
        if should_push_body(body_len(&proposal.block.data), self.body_push_max_bytes) {
            let ghost before = *block_tree;
            let me = self.config.keypair.public();
            let ghost response = BlockDataResponse { view: proposal.view, block: proposal.block };
            assert(tree::validators_of(current.tree) == tree::validators_of(run.tree)) by {
                lemma_other_deeds(kept.tree, stored, broadcast);
            }
            self.push_body(&proposal, &me, block_tree);
            proof {
                let deeds = push_deeds(tree::validators_of(run.tree).committed, me, response);
                state::lemma_did(start, *self, before, *block_tree, current, deeds);
                current = state::did(current, deeds);
            }
        }
        let ghost before = *block_tree;
        block_tree.publish(Event::Propose { proposal });
        proof {
            state::lemma_did(
                start,
                *self,
                before,
                *block_tree,
                current,
                seq![Deed::Other(Effect::Publish(Event::Propose { proposal }))],
            );
        }
    }

    fn push_body(
        &self,
        proposal: &Proposal,
        me: &VerifyingKey,
        block_tree: &mut BlockTreeSingleton,
    )
        requires
            tree::initialized(old(block_tree)@),
        ensures
            tree::advanced(
                *old(block_tree),
                *final(block_tree),
                push_deeds(
                    tree::validators_of(old(block_tree)@).committed,
                    *me,
                    (BlockDataResponse { view: proposal.view, block: proposal.block }),
                ),
            ),
            final(block_tree).gap_watch == old(block_tree).gap_watch,
    {
        let validators = match block_tree.committed_validator_set() {
            Ok(validators) => validators,
            Err(_) => ValidatorSet::new(),
        };
        assert(validators@ == tree::validators_of(block_tree@).committed);
        let ghost response = BlockDataResponse { view: proposal.view, block: proposal.block };
        let mut i: usize = 0;
        proof {
            tree::lemma_advanced_refl(*block_tree);
            assert(validators@.take(0) =~= Seq::<(VerifyingKey, Power)>::empty());
        }
        while i < validators.len()
            invariant
                i <= validators@.len(),
                response == (BlockDataResponse { view: proposal.view, block: proposal.block }),
                tree::advanced(
                    *old(block_tree),
                    *block_tree,
                    push_deeds(validators@.take(i as int), *me, response),
                ),
                block_tree.gap_watch == old(block_tree).gap_watch,
            decreases validators@.len() - i,
        {
            let ghost so_far = push_deeds(validators@.take(i as int), *me, response);
            let ghost before = *block_tree;
            assert(validators@.take(i + 1).drop_last() =~= validators@.take(i as int));
            let key = validators.key_at(i);
            if key != *me {
                let message = HotStuffMessage::BlockDataResponse(
                    BlockDataResponse { view: proposal.view, block: proposal.block.clone() },
                );
                block_tree.emit(Effect::Send(key, message));
                proof {
                    tree::lemma_advanced_trans(
                        *old(block_tree),
                        before,
                        *block_tree,
                        so_far,
                        voting::sent(key, HotStuffMessage::BlockDataResponse(response)),
                    );
                }
            }
            i = i + 1;
        }
        assert(validators@.take(i as int) =~= validators@);
    }

    /// Handle the replica's own header at once.
    fn handle_inline<R: Roles>(
        &mut self,
        block: &Block,
        has_updates: bool,
        locked: bool,
        block_tree: &mut BlockTreeSingleton,
        roles: &R,
        Ghost(start): Ghost<BlockTreeSingleton>,
        Ghost(run): Ghost<Run>,
    )
        requires
            state::reached(start, *old(self), *old(block_tree), run),
            tree::initialized(run.tree),
        ensures
            state::reached(
                start,
                *final(self),
                *final(block_tree),
                handled_inline(run, *roles, *block, has_updates, locked),
            ),
            tree::initialized(handled_inline(run, *roles, *block, has_updates, locked).tree),
    {
        let me = self.config.keypair.public();
        let view = self.view_info.view;
        if self.first_proposal(view, &me).is_none() {
            self.seen_proposals.push(SeenProposal { view, leader: me, hash: block.hash });
        }
        self.inline_header = Some(block.hash);
        self.hear(&me);
        let ghost noted = state::now_holding(run, self@);
        assert(state::reached(start, *self, *block_tree, noted));
        let ghost mut safe = noted;
        if !locked {
            let ghost before = *block_tree;
            let _ = block_tree.update_locks_only(&block.justify, roles);
            proof {
                let deeds = updates::locks_only_deeds(noted.tree, block.justify, *roles);
                state::lemma_did(start, *self, before, *block_tree, noted, deeds);
                safe = state::did(noted, deeds);
            }
        }
        if self.is_allowed_to_vote(&block.justify, block_tree, roles, Ghost(start), Ghost(safe)) {
            let phase = if has_updates {
                Phase::Prepare
            } else {
                Phase::Generic
            };
            self.cast_vote(block.hash, phase, None, block_tree, roles, Ghost(start), Ghost(safe));
        }
    }

    /// Propose a block that the replica produced.
    pub(crate) fn lead<R: Roles>(
        &mut self,
        block: Block,
        app_state_updates: Option<AppStateUpdates>,
        validator_set_updates: Option<ValidatorSetUpdates>,
        is_retry: bool,
        block_tree: &mut BlockTreeSingleton,
        roles: &R,
        Ghost(start): Ghost<BlockTreeSingleton>,
        Ghost(run): Ghost<Run>,
    )
        requires
            state::reached(start, *old(self), *old(block_tree), run),
            tree::initialized(run.tree),
        ensures
            state::reached(
                start,
                *final(self),
                *final(block_tree),
                led(run, *roles, block, app_state_updates, validator_set_updates, is_retry),
            ),
            tree::initialized(
                led(run, *roles, block, app_state_updates, validator_set_updates, is_retry).tree,
            ),
    {
        let app = app_state_updates.as_ref();
        let validators = validator_set_updates.as_ref();
        assert(updates::deref_option(app) == app_state_updates);
        assert(updates::deref_option(validators) == validator_set_updates);
        let mut staged = BlockTreeWriteBatch::new();
        block_tree.stage_insert(&mut staged, &block, app, validators);
        let ghost changes = updates::insertion(run.tree, block, app_state_updates, validator_set_updates);
        assert(staged@ == changes);
        let ghost outcome = acting::updated(run, *roles, changes, block.justify);
        let mut result = UpdateResult {
            validator_set_updates: None,
            committed_block_hashes: Vec::new(),
        };
        let ghost mut current = outcome.0;
        let ghost mut committed: Seq<CommittedBlock> = Seq::empty();
        assert(result.committed_block_hashes@ =~= updates::hashes_of(committed));
        let mut locked = true;
        match self.update_tree(
            staged,
            &block.justify,
            block_tree,
            roles,
            Ghost(start),
            Ghost(run),
        ) {
            Ok(brought) => {
                proof {
                    committed = outcome.1->Ok_0;
                }
                result = brought;
            },
            Err(e) => {
                locked = false;
                let ghost before = *block_tree;
                let mut alone = BlockTreeWriteBatch::new();
                let ghost late = updates::insertion(
                    block_tree@,
                    block,
                    app_state_updates,
                    validator_set_updates,
                );
                block_tree.stage_insert(&mut alone, &block, app, validators);
                assert(alone@ == changes);
                block_tree.write(alone);
                proof {
                    state::lemma_did(
                        start,
                        *self,
                        before,
                        *block_tree,
                        outcome.0,
                        seq![Deed::Persist(changes)],
                    );
                    current = state::did(outcome.0, seq![Deed::Persist(changes)]);
                }
                if is_retry && is_block_missing(&Some(e)) {
                    self.sync_needed = true;
                }
            },
        }
        proof {
            current = state::now_holding(current, self@);
        }
        assert(state::reached(start, *self, *block_tree, current));
        let ghost before = *block_tree;
        block_tree.publish(Event::InsertBlock { block: block.clone() });
        proof {
            state::lemma_did(
                start,
                *self,
                before,
                *block_tree,
                current,
                seq![Deed::Other(Effect::Publish(Event::InsertBlock { block }))],
            );
            current = state::told(current, Event::InsertBlock { block });
        }
        let proposal = Proposal {
            chain_id: self.config.chain_id,
            view: self.view_info.view,
            block: block.clone(),
            tc: None,
            nec: None,
        };
        assert(proposal == proposal_for(current.hs, block, None, None));
        let has_updates = validator_set_updates.is_some();
        if self.defer_commit_feed {
            self.propose(proposal, has_updates, block_tree, Ghost(start), Ghost(current));
            let ghost announced = proposed(current, proposal, has_updates);
            self.handle_inline(
                &block,
                has_updates,
                locked,
                block_tree,
                roles,
                Ghost(start),
                Ghost(announced),
            );
            let ghost inline = handled_inline(announced, *roles, block, has_updates, locked);
            self.process_update_result(
                result,
                block_tree,
                Ghost(start),
                Ghost(inline),
                Ghost(committed),
            );
        } else {
            self.process_update_result(
                result,
                block_tree,
                Ghost(start),
                Ghost(current),
                Ghost(committed),
            );
            let ghost known = acting::made_known(current, committed);
            self.propose(proposal, has_updates, block_tree, Ghost(start), Ghost(known));
        }
    }
}

/// Deeds other than a batch leave the tree as it is.
proof fn lemma_other_deeds(tree: TreeView, first: Deed, second: Deed)
    requires
        first is Other,
        second is Other,
    ensures
        tree::replay(tree, seq![first, second]) == tree,
{
    tree::lemma_replay_concat(tree, seq![first], seq![second]);
    tree::lemma_replay_one(tree, first);
    tree::lemma_replay_one(tree, second);
    assert(seq![first] + seq![second] =~= seq![first, second]);
}

} // verus!

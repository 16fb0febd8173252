//! Acting on certificates and taking blocks in: what the handlers have in common.

use vstd::prelude::*;

use crate::block_tree::commit::CommittedBlock;
use crate::block_tree::errors::BlockTreeError;
use crate::block_tree::retention::Retention;
use crate::block_tree::store::TreeView;
use crate::block_tree::tree;
use crate::block_tree::tree::BlockTreeSingleton;
use crate::block_tree::updates;
use crate::block_tree::updates::UpdateResult;
use crate::block_tree::write_batch::{BlockTreeWriteBatch, Change};
use crate::committed_feed;
use crate::committed_feed::feed_committed_blocks_to_app;
use crate::effects::{Deed, Effect};
use crate::events::Event;
use crate::hotstuff::collectors;
use crate::hotstuff::state;
use crate::hotstuff::state::{HotStuff, HsView, Run};
use crate::hotstuff::types::PhaseCertificate;
use crate::roles::Roles;
use crate::types::block::Block;
use crate::types::update_sets::AppStateUpdates;
use crate::types::validator_set::ValidatorSetUpdates;

verus! {

/// The tree acting on `justify`, with the changes `staged` in the same batch: where that leads, and
/// the blocks that were committed or the error because of which nothing was done.
pub open spec fn updated<R: Roles>(
    run: Run,
    roles: R,
    staged: Seq<Change>,
    justify: PhaseCertificate,
) -> (Run, Result<Seq<CommittedBlock>, BlockTreeError>) {
    let watched = Run { watch: updates::watch_after(run.tree, justify, run.watch), ..run };
    match updates::staged_update_outcome(run.tree, staged, justify, roles, run.retention) {
        Ok((deeds, committed)) => (state::did(watched, deeds), Ok(committed)),
        Err(e) => (watched, Err(e)),
    }
}

/// The application and the network hearing of the blocks that were committed.
pub open spec fn made_known(run: Run, committed: Seq<CommittedBlock>) -> Run {
    let fed = if committed.len() > 0 {
        state::did(run, committed_feed::feed_deeds(run.tree))
    } else {
        run
    };
    match updates::latest_updates(committed) {
        Some(updates) => state::did(fed, seq![Deed::Other(Effect::UpdateValidatorSet(updates))]),
        None => fed,
    }
}

/// The tree acting on `justify`, and the application and the network hearing of it. With the error
/// because of which nothing was done, if there was one.
pub open spec fn acted<R: Roles>(run: Run, roles: R, justify: PhaseCertificate) -> (
    Run,
    Option<BlockTreeError>,
) {
    let (after, result) = updated(run, roles, Seq::empty(), justify);
    match result {
        Ok(committed) => (made_known(after, committed), None),
        Err(e) => (after, Some(e)),
    }
}

/// The vote collectors following the tree's validator sets.
pub open spec fn refreshed(run: Run) -> Run {
    state::now_holding(
        run,
        HsView {
            collectors: collectors::refreshed_collectors(run.hs.collectors, tree::validators_of(run.tree)),
            ..run.hs
        },
    )
}

/// A block put into the tree.
pub open spec fn inserted(
    run: Run,
    block: Block,
    app_state_updates: Option<AppStateUpdates>,
    validator_set_updates: Option<ValidatorSetUpdates>,
) -> Run {
    state::told(
        state::did(
            run,
            seq![
                Deed::Persist(updates::insertion(run.tree, block, app_state_updates, validator_set_updates)),
            ],
        ),
        Event::InsertBlock { block },
    )
}

/// A valid block taken in: it is put into the tree, the tree acts on its certificate, and the vote
/// collectors follow.
pub open spec fn taken_in<R: Roles>(
    run: Run,
    roles: R,
    block: Block,
    app_state_updates: Option<AppStateUpdates>,
    validator_set_updates: Option<ValidatorSetUpdates>,
) -> (Run, Option<BlockTreeError>) {
    let (after, error) = acted(
        inserted(run, block, app_state_updates, validator_set_updates),
        roles,
        block.justify,
    );
    (refreshed(after), error)
}

/// Whether an error says that a block is missing.
pub open spec fn misses_block(error: Option<BlockTreeError>) -> bool {
    match error {
        Some(BlockTreeError::BlockExpectedButNotFound { block }) => true,
        _ => false,
    }
}

/// Whether an error says that a block is missing.
pub(crate) fn is_block_missing(error: &Option<BlockTreeError>) -> (r: bool)
    ensures
        r == misses_block(*error),
{
    match error {
        Some(BlockTreeError::BlockExpectedButNotFound { block: _ }) => true,
        _ => false,
    }
}

impl HotStuff {
    /// Let the tree act on `justify` and write `staged` in the same batch.
    pub(crate) fn update_tree<R: Roles>(
        &self,
        staged: BlockTreeWriteBatch,
        justify: &PhaseCertificate,
        block_tree: &mut BlockTreeSingleton,
        roles: &R,
        Ghost(start): Ghost<BlockTreeSingleton>,
        Ghost(run): Ghost<Run>,
    ) -> (r: Result<UpdateResult, BlockTreeError>)
        requires
            state::reached(start, *self, *old(block_tree), run),
            tree::initialized(run.tree),
        ensures
            state::reached(
                start,
                *self,
                *final(block_tree),
                updated(run, *roles, staged@, *justify).0,
            ),
            tree::initialized(updated(run, *roles, staged@, *justify).0.tree),
            match updated(run, *roles, staged@, *justify).1 {
                Ok(committed) => r is Ok && r->Ok_0.committed_block_hashes@ == updates::hashes_of(committed)
                    && r->Ok_0.validator_set_updates == updates::latest_updates(committed),
                Err(e) => r == Err::<UpdateResult, BlockTreeError>(e),
            },
    {
        let ghost before = *block_tree;
        let ghost changes = staged@;
        let r = block_tree.update_staged(staged, justify, roles);
        proof {
            match updates::staged_update_outcome(run.tree, changes, *justify, *roles, run.retention) {
                Ok((deeds, committed)) => {
                    state::lemma_did(start, *self, before, *block_tree, run, deeds);
                },
                Err(e) => {
                    state::lemma_did(start, *self, before, *block_tree, run, Seq::empty());
                    crate::hotstuff::state::lemma_did_nothing(run);
                },
            }
        }
        r
    }

    /// Let the application and the network hear of the blocks that were committed.
    pub(crate) fn process_update_result(
        &self,
        result: UpdateResult,
        block_tree: &mut BlockTreeSingleton,
        Ghost(start): Ghost<BlockTreeSingleton>,
        Ghost(run): Ghost<Run>,
        Ghost(committed): Ghost<Seq<CommittedBlock>>,
    )
        requires
            state::reached(start, *self, *old(block_tree), run),
            tree::initialized(run.tree),
            result.committed_block_hashes@ == updates::hashes_of(committed),
            result.validator_set_updates == updates::latest_updates(committed),
        ensures
            state::reached(start, *self, *final(block_tree), made_known(run, committed)),
            tree::initialized(made_known(run, committed).tree),
    {
        let ghost mut current = run;
        if result.committed_block_hashes.len() > 0 {
            let ghost before = *block_tree;
            let _ = feed_committed_blocks_to_app(block_tree);
            proof {
                state::lemma_did(start, *self, before, *block_tree, run, committed_feed::feed_deeds(run.tree));
                current = state::did(run, committed_feed::feed_deeds(run.tree));
            }
        }
        match result.validator_set_updates {
            Some(updates) => {
                let ghost before = *block_tree;
                block_tree.emit(Effect::UpdateValidatorSet(updates));
                proof {
                    state::lemma_did(
                        start,
                        *self,
                        before,
                        *block_tree,
                        current,
                        seq![Deed::Other(Effect::UpdateValidatorSet(updates))],
                    );
                }
            },
            None => {},
        }
    }

    /// Let the tree act on `justify`, and the application and the network hear of it.
    pub(crate) fn act_on<R: Roles>(
        &self,
        justify: &PhaseCertificate,
        block_tree: &mut BlockTreeSingleton,
        roles: &R,
        Ghost(start): Ghost<BlockTreeSingleton>,
        Ghost(run): Ghost<Run>,
    ) -> (r: Option<BlockTreeError>)
        requires
            state::reached(start, *self, *old(block_tree), run),
            tree::initialized(run.tree),
        ensures
            state::reached(start, *self, *final(block_tree), acted(run, *roles, *justify).0),
            tree::initialized(acted(run, *roles, *justify).0.tree),
            r == acted(run, *roles, *justify).1,
    {
        let ghost outcome = updated(run, *roles, Seq::empty(), *justify);
        let nothing = BlockTreeWriteBatch::new();
        assert(nothing@ =~= Seq::<Change>::empty());
        match self.update_tree(nothing, justify, block_tree, roles, Ghost(start), Ghost(run)) {
            Ok(result) => {
                self.process_update_result(
                    result,
                    block_tree,
                    Ghost(start),
                    Ghost(outcome.0),
                    Ghost(outcome.1->Ok_0),
                );
                None
            },
            Err(e) => Some(e),
        }
    }

    /// Let the vote collectors follow the tree's validator sets.
    pub(crate) fn refresh_collectors(
        &mut self,
        block_tree: &BlockTreeSingleton,
        Ghost(start): Ghost<BlockTreeSingleton>,
        Ghost(run): Ghost<Run>,
    )
        requires
            state::reached(start, *old(self), *block_tree, run),
            tree::initialized(run.tree),
        ensures
            state::reached(start, *final(self), *block_tree, refreshed(run)),
    {
        match block_tree.validator_set_state() {
            Ok(state) => {
                self.phase_vote_collectors.update_validator_sets(&state);
            },
            Err(_) => {},
        }
    }

    /// Put a block into the tree.
    pub(crate) fn insert_block(
        &self,
        block: &Block,
        app_state_updates: &Option<AppStateUpdates>,
        validator_set_updates: &Option<ValidatorSetUpdates>,
        block_tree: &mut BlockTreeSingleton,
        Ghost(start): Ghost<BlockTreeSingleton>,
        Ghost(run): Ghost<Run>,
    )
        requires
            state::reached(start, *self, *old(block_tree), run),
            tree::initialized(run.tree),
        ensures
            state::reached(
                start,
                *self,
                *final(block_tree),
                inserted(run, *block, *app_state_updates, *validator_set_updates),
            ),
            tree::initialized(inserted(run, *block, *app_state_updates, *validator_set_updates).tree),
    {
        let ghost before = *block_tree;
        let app = app_state_updates.as_ref();
        let validators = validator_set_updates.as_ref();
        assert(updates::deref_option(app) == *app_state_updates);
        assert(updates::deref_option(validators) == *validator_set_updates);
        let _ = block_tree.insert(block, app, validators);
        let ghost deeds = seq![
            Deed::Persist(updates::insertion(run.tree, *block, *app_state_updates, *validator_set_updates)),
        ];
        let ghost mid = *block_tree;
        proof {
            state::lemma_did(start, *self, before, mid, run, deeds);
        }
        block_tree.publish(Event::InsertBlock { block: block.clone() });
        proof {
            state::lemma_did(
                start,
                *self,
                mid,
                *block_tree,
                state::did(run, deeds),
                seq![Deed::Other(Effect::Publish(Event::InsertBlock { block: *block }))],
            );
        }
    }

    /// Take in a valid block.
    pub(crate) fn take_in<R: Roles>(
        &mut self,
        block: &Block,
        app_state_updates: &Option<AppStateUpdates>,
        validator_set_updates: &Option<ValidatorSetUpdates>,
        block_tree: &mut BlockTreeSingleton,
        roles: &R,
        Ghost(start): Ghost<BlockTreeSingleton>,
        Ghost(run): Ghost<Run>,
    ) -> (r: Option<BlockTreeError>)
        requires
            state::reached(start, *old(self), *old(block_tree), run),
            tree::initialized(run.tree),
        ensures
            state::reached(
                start,
                *final(self),
                *final(block_tree),
                taken_in(run, *roles, *block, *app_state_updates, *validator_set_updates).0,
            ),
            tree::initialized(
                taken_in(
                    run,
                    *roles,
                    *block,
                    *app_state_updates,
                    *validator_set_updates,
                ).0.tree,
            ),
            r == taken_in(run, *roles, *block, *app_state_updates, *validator_set_updates).1,
    {
        self.insert_block(
            block,
            app_state_updates,
            validator_set_updates,
            block_tree,
            Ghost(start),
            Ghost(run),
        );
        let ghost run1 = inserted(run, *block, *app_state_updates, *validator_set_updates);
        let error = self.act_on(&block.justify, block_tree, roles, Ghost(start), Ghost(run1));
        let ghost run2 = acted(run1, *roles, block.justify).0;
        self.refresh_collectors(block_tree, Ghost(start), Ghost(run2));
        error
    }
}

/// The deeds by which the application and the network hear of the blocks that were committed.
pub open spec fn news_deeds(tree: TreeView, committed: Seq<CommittedBlock>) -> Seq<Deed> {
    let fed = if committed.len() > 0 {
        committed_feed::feed_deeds(tree)
    } else {
        Seq::empty()
    };
    match updates::latest_updates(committed) {
        Some(updates) => fed + seq![Deed::Other(Effect::UpdateValidatorSet(updates))],
        None => fed,
    }
}

/// The deeds of a tree that acts on `justify`, and of the application and the network hearing of
/// it.
pub open spec fn act_deeds<R: Roles>(
    tree: TreeView,
    roles: R,
    justify: PhaseCertificate,
    retention: Retention,
) -> Seq<Deed> {
    match updates::update_outcome(tree, justify, roles, retention) {
        Ok((deeds, committed)) => deeds + news_deeds(tree::replay(tree, deeds), committed),
        Err(_) => Seq::empty(),
    }
}

/// Let the tree act on `justify`, and the application and the network hear of it.
pub(crate) fn act_on_certificate<R: Roles>(
    block_tree: &mut BlockTreeSingleton,
    justify: &PhaseCertificate,
    roles: &R,
)
    requires
        tree::initialized(old(block_tree)@),
    ensures
        tree::advanced(
            *old(block_tree),
            *final(block_tree),
            act_deeds(old(block_tree)@, *roles, *justify, old(block_tree).retention),
        ),
        final(block_tree).gap_watch == updates::watch_after(
            old(block_tree)@,
            *justify,
            old(block_tree).gap_watch,
        ),
        tree::initialized(final(block_tree)@),
{
    let ghost outcome = updates::update_outcome(
        block_tree@,
        *justify,
        *roles,
        block_tree.retention,
    );
    let result = match block_tree.update(justify, roles) {
        Ok(result) => result,
        Err(_) => {
            return;
        },
    };
    let ghost deeds = outcome->Ok_0.0;
    let ghost committed = outcome->Ok_0.1;
    let ghost t1 = *block_tree;
    let ghost mut done = deeds;
    assert(updates::hashes_of(committed).len() == committed.len());
    if result.committed_block_hashes.len() > 0 {
        let _ = feed_committed_blocks_to_app(block_tree);
        proof {
            let fed = committed_feed::feed_deeds(t1@);
            tree::lemma_advanced_trans(*old(block_tree), t1, *block_tree, deeds, fed);
            done = deeds + fed;
        }
    }
    let ghost t2 = *block_tree;
    match result.validator_set_updates {
        Some(updates) => {
            let ghost told = seq![Deed::Other(Effect::UpdateValidatorSet(updates))];
            block_tree.emit(Effect::UpdateValidatorSet(updates));
            proof {
                tree::lemma_advanced_trans(*old(block_tree), t2, *block_tree, done, told);
                done = done + told;
            }
        },
        None => {},
    }
    proof {
        assert(done =~= act_deeds(
            old(block_tree)@,
            *roles,
            *justify,
            old(block_tree).retention,
        ));
        tree::lemma_replay_keeps_initialized(old(block_tree)@, done);
    }
}

} // verus!

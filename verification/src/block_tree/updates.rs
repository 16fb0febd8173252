//! The top-level changes to the block tree: inserting a block, and acting on a certificate.

use vstd::prelude::*;

use crate::block_tree::commit;
use crate::block_tree::commit::CommittedBlock;
use crate::block_tree::errors::BlockTreeError;
use crate::block_tree::invariants;
use crate::block_tree::invariants::{block_to_commit, pc_to_lock};
use crate::block_tree::pruning;
use crate::block_tree::retention::Retention;
use crate::block_tree::speculation;
use crate::block_tree::store;
use crate::block_tree::store::TreeView;
use crate::block_tree::tree;
use crate::block_tree::tree::{BlockTreeSingleton, GapWatch};
use crate::block_tree::write_batch;
use crate::block_tree::write_batch::{BlockTreeWriteBatch, Change, WriteOp};
use crate::effects::{Deed, Effect};
use crate::events::Event;
use crate::hotstuff::types::{Phase, PhaseCertificate};
use crate::roles::Roles;
use crate::types::block::Block;
use crate::types::data_types::{copy_hashes, ChildrenList, CryptoHash, ViewNumber};
use crate::types::update_sets::AppStateUpdates;
use crate::types::validator_set::{ValidatorSetState, ValidatorSetUpdates, ValidatorSetUpdatesStatus};

verus! {

/// What [`BlockTreeSingleton::update`] brought about: the updates to the validator set, and the
/// blocks that were committed, oldest first.
#[derive(PartialEq, Eq, Debug)]
pub struct UpdateResult {
    pub validator_set_updates: Option<ValidatorSetUpdates>,
    pub committed_block_hashes: Vec<CryptoHash>,
}

/// The blocks inserted directly under `parent`.
pub open spec fn children_of(tree: TreeView, parent: CryptoHash) -> Seq<CryptoHash> {
    if tree.children.contains_key(parent) {
        tree.children[parent]
    } else {
        Seq::empty()
    }
}

/// The changes that insert `block`.
pub open spec fn insertion(
    tree: TreeView,
    block: Block,
    app_state_updates: Option<AppStateUpdates>,
    validator_set_updates: Option<ValidatorSetUpdates>,
) -> Seq<Change> {
    let stored = seq![
        Change::Plain(WriteOp::SetBlock(block)),
        Change::Plain(WriteOp::SetNewestBlock(block.hash)),
    ];
    let app = match app_state_updates {
        Some(updates) => seq![
            Change::Plain(WriteOp::SetPendingAppStateUpdates(block.hash, updates)),
        ],
        None => Seq::empty(),
    };
    let validators = match validator_set_updates {
        Some(updates) => seq![
            Change::Plain(
                WriteOp::SetValidatorSetUpdates(
                    block.hash,
                    ValidatorSetUpdatesStatus::Pending(updates),
                ),
            ),
        ],
        None => Seq::empty(),
    };
    (stored + app + validators).push(
        Change::Children(
            block.justify.block,
            children_of(tree, block.justify.block).push(block.hash),
        ),
    )
}

/// The value behind an optional reference.
pub open spec fn deref_option<T>(value: Option<&T>) -> Option<T> {
    match value {
        Some(value) => Some(*value),
        None => None,
    }
}

/// The changes of initialization, apart from the genesis certificates.
pub open spec fn initial_changes(
    app_state: AppStateUpdates,
    validators: ValidatorSetState,
    genesis: PhaseCertificate,
) -> Seq<Change> {
    let sets = write_batch::app_state_changes(app_state) + seq![
        Change::CommittedValidators(validators.committed_validator_set@),
        Change::PreviousValidators(validators.previous_validator_set@),
    ];
    let height = match validators.update_height {
        Some(height) => seq![Change::Plain(WriteOp::SetValidatorSetUpdateHeight(height))],
        None => Seq::empty(),
    };
    sets + height + seq![
        Change::Plain(WriteOp::SetValidatorSetUpdateDecided(validators.update_decided)),
        Change::Plain(WriteOp::SetLockedPC(genesis)),
        Change::Plain(WriteOp::SetHighestViewEntered(ViewNumber(0))),
        Change::Plain(WriteOp::SetHighestPC(genesis)),
    ]
}

/// Whether `pc` is newer than the highest certificate.
pub open spec fn is_news(tree: TreeView, pc: PhaseCertificate) -> bool {
    pc.view.0 > (tree.highest_pc->0).view.0
}

/// The changes to the highest certificate and the lock upon seeing `justify`.
pub open spec fn lock_changes(tree: TreeView, justify: PhaseCertificate) -> Seq<Change> {
    let highest = if is_news(tree, justify) {
        seq![Change::Plain(WriteOp::SetHighestPC(justify))]
    } else {
        Seq::empty()
    };
    let lock = match invariants::new_lock(tree, justify) {
        Some(pc) => seq![Change::Plain(WriteOp::SetLockedPC(pc))],
        None => Seq::empty(),
    };
    highest + lock
}

/// The change that a decide certificate makes: the change of validators is decided.
pub open spec fn decision(justify: PhaseCertificate) -> Seq<Change> {
    if justify.phase == Phase::Decide {
        seq![Change::Plain(WriteOp::SetValidatorSetUpdateDecided(true))]
    } else {
        Seq::empty()
    }
}

/// The deed of telling observers of `event`.
pub open spec fn published(event: Event) -> Deed {
    Deed::Other(Effect::Publish(event))
}

/// The events of a committed block.
pub open spec fn commit_events(committed: CommittedBlock) -> Seq<Deed> {
    let plain = seq![
        published(Event::PruneBlock { block: committed.0 }),
        published(Event::CommitBlock { block: committed.0 }),
    ];
    match committed.1 {
        Some(updates) => plain.push(
            published(
                Event::UpdateValidatorSet {
                    cause_block: committed.0,
                    validator_set_updates: updates,
                },
            ),
        ),
        None => plain,
    }
}

/// The events of committed blocks, oldest first.
pub open spec fn all_commit_events(committed: Seq<CommittedBlock>) -> Seq<Deed>
    decreases committed.len(),
{
    if committed.len() == 0 {
        Seq::empty()
    } else {
        all_commit_events(committed.drop_last()) + commit_events(committed.last())
    }
}

/// The events of acting on a certificate: a new highest certificate, a new lock, and commits.
pub open spec fn update_events(
    highest: Option<PhaseCertificate>,
    locked: Option<PhaseCertificate>,
    committed: Seq<CommittedBlock>,
) -> Seq<Deed> {
    highest_event(highest) + locked_event(locked) + all_commit_events(committed)
}

/// The event of a new highest certificate.
pub open spec fn highest_event(highest: Option<PhaseCertificate>) -> Seq<Deed> {
    match highest {
        Some(pc) => seq![published(Event::UpdateHighestPC { highest_pc: pc })],
        None => Seq::empty(),
    }
}

/// The event of a new lock.
pub open spec fn locked_event(locked: Option<PhaseCertificate>) -> Seq<Deed> {
    match locked {
        Some(pc) => seq![published(Event::UpdateLockedPC { locked_pc: pc })],
        None => Seq::empty(),
    }
}

/// The new highest certificate, if `justify` is one.
pub open spec fn new_highest(tree: TreeView, justify: PhaseCertificate) -> Option<
    PhaseCertificate,
> {
    if is_news(tree, justify) {
        Some(justify)
    } else {
        None
    }
}

/// The deeds that follow the commit of one block: it is no longer speculative, and the leader that
/// proposed it is credited.
pub open spec fn settle_one<R: Roles>(tree: TreeView, roles: R, block: CryptoHash) -> Seq<Deed> {
    let promoted = speculation::unspeculate(tree, block);
    let after = tree::replay(tree, promoted);
    if after.blocks.contains_key(block) && !after.blocks[block].justify.is_genesis()
        && after.blocks[block].justify.view.0 < u64::MAX {
        promoted + speculation::credit_view(
            after,
            roles,
            ViewNumber((after.blocks[block].justify.view.0 + 1) as u64),
        )
    } else {
        promoted
    }
}

/// The deeds that follow the commit of blocks, oldest first.
pub open spec fn settle_all<R: Roles>(
    tree: TreeView,
    roles: R,
    committed: Seq<CommittedBlock>,
) -> Seq<Deed>
    decreases committed.len(),
{
    if committed.len() == 0 {
        Seq::empty()
    } else {
        let before = settle_all(tree, roles, committed.drop_last());
        before + settle_one(tree::replay(tree, before), roles, committed.last().0)
    }
}

/// The deeds that credit the leader of a new highest certificate's view.
pub open spec fn credit_news<R: Roles>(
    tree: TreeView,
    roles: R,
    news: bool,
    justify: PhaseCertificate,
) -> Seq<Deed> {
    if news && !justify.is_genesis() {
        speculation::credit_view(tree, roles, justify.view)
    } else {
        Seq::empty()
    }
}

/// What committing what `justify` commits does: changes, and the committed blocks or an error.
pub open spec fn justified_commit(tree: TreeView, justify: PhaseCertificate) -> (
    Seq<Change>,
    Result<Seq<CommittedBlock>, BlockTreeError>,
) {
    match invariants::commit_target(tree, justify) {
        Err(e) => (Seq::empty(), Err(e)),
        Ok(None) => (Seq::empty(), Ok(Seq::empty())),
        Ok(Some(block)) => commit::commit_outcome(tree, block),
    }
}

/// What acting on `justify` does: the deeds and the committed blocks, or an error, in which case
/// nothing is done.
pub open spec fn update_outcome<R: Roles>(
    tree: TreeView,
    justify: PhaseCertificate,
    roles: R,
    retention: Retention,
) -> Result<(Seq<Deed>, Seq<CommittedBlock>), BlockTreeError> {
    staged_update_outcome(tree, Seq::empty(), justify, roles, retention)
}

/// What acting on `justify` does when the changes `staged` are written in the same batch.
pub open spec fn staged_update_outcome<R: Roles>(
    tree: TreeView,
    staged: Seq<Change>,
    justify: PhaseCertificate,
    roles: R,
    retention: Retention,
) -> Result<(Seq<Deed>, Seq<CommittedBlock>), BlockTreeError> {
    let (commit_changes, result) = justified_commit(tree, justify);
    match result {
        Err(e) => Err(e),
        Ok(committed) => {
            let written = seq![
                Deed::Persist(
                    staged + lock_changes(tree, justify) + commit_changes + decision(justify),
                ),
            ];
            let credited = credit_news(
                tree::replay(tree, written),
                roles,
                is_news(tree, justify),
                justify,
            );
            let settled = settle_all(tree::replay(tree, written + credited), roles, committed);
            let events = update_events(
                new_highest(tree, justify),
                invariants::new_lock(tree, justify),
                committed,
            );
            let before_pruning = written + credited + settled + events;
            let pruned = if committed.len() == 0 {
                Seq::empty()
            } else {
                pruning::prune_deeds(tree::replay(tree, before_pruning), retention)
            };
            Ok((before_pruning + pruned, committed))
        },
    }
}

/// The deeds of moving the highest certificate and the lock on without committing.
pub open spec fn locks_only_deeds<R: Roles>(
    tree: TreeView,
    justify: PhaseCertificate,
    roles: R,
) -> Seq<Deed> {
    let written = seq![Deed::Persist(lock_changes(tree, justify) + decision(justify))];
    let credited = credit_news(tree::replay(tree, written), roles, is_news(tree, justify), justify);
    written + credited + update_events(
        new_highest(tree, justify),
        invariants::new_lock(tree, justify),
        Seq::empty(),
    )
}

/// The validator set updates of the newest committed block that brought any.
pub open spec fn latest_updates(committed: Seq<CommittedBlock>) -> Option<ValidatorSetUpdates>
    decreases committed.len(),
{
    if committed.len() == 0 {
        None
    } else if committed.last().1 is Some {
        committed.last().1
    } else {
        latest_updates(committed.drop_last())
    }
}

/// The hashes of committed blocks.
pub open spec fn hashes_of(committed: Seq<CommittedBlock>) -> Seq<CryptoHash> {
    committed.map_values(|c: CommittedBlock| c.0)
}

/// The gap watch after acting on `justify`.
pub open spec fn watch_after(tree: TreeView, justify: PhaseCertificate, watch: GapWatch) -> GapWatch {
    match invariants::commit_target(tree, justify) {
        Ok(Some(block)) => if commit::commit_deferred(tree, block) {
            tree::gap_noted(watch, commit::uncommitted_chain(tree, block, u64::MAX as nat).last())
        } else {
            watch
        },
        _ => watch,
    }
}

fn find_latest_updates(committed: &Vec<(CryptoHash, Option<ValidatorSetUpdates>)>) -> (r: Option<
    ValidatorSetUpdates,
>)
    ensures
        r == latest_updates(committed@),
{
    let mut left: usize = committed.len();
    assert(committed@.take(left as int) =~= committed@);
    while left > 0
        invariant
            left <= committed@.len(),
            latest_updates(committed@) == latest_updates(committed@.take(left as int)),
        decreases left,
    {
        assert(committed@.take(left as int).drop_last() =~= committed@.take(left - 1));
        match &committed[left - 1].1 {
            Some(updates) => {
                return Some(updates.clone());
            },
            None => {},
        }
        left = left - 1;
    }
    None
}

fn collect_hashes(committed: &Vec<(CryptoHash, Option<ValidatorSetUpdates>)>) -> (r: Vec<
    CryptoHash,
>)
    ensures
        r@ == hashes_of(committed@),
{
    let mut r: Vec<CryptoHash> = Vec::new();
    let mut i: usize = 0;
    while i < committed.len()
        invariant
            i <= committed@.len(),
            r@ =~= hashes_of(committed@).take(i as int),
        decreases committed@.len() - i,
    {
        r.push(committed[i].0);
        i = i + 1;
    }
    assert(hashes_of(committed@).take(i as int) =~= hashes_of(committed@));
    r
}

impl BlockTreeSingleton {
    /// Give the variables that need one their first value. To be called once, on an empty tree,
    /// before anything else.
    pub fn initialize(
        &mut self,
        initial_app_state: &AppStateUpdates,
        initial_validator_set_state: &ValidatorSetState,
    ) -> (r: Result<(), BlockTreeError>)
        ensures
            r is Ok,
            exists|genesis: PhaseCertificate|
                genesis.is_genesis() && #[trigger] tree::advanced(
                    *old(self),
                    *final(self),
                    seq![
                        Deed::Persist(
                            initial_changes(
                                *initial_app_state,
                                *initial_validator_set_state,
                                genesis,
                            ),
                        ),
                    ],
                ),
            store::readable(old(self)@) ==> tree::initialized(final(self)@),
            final(self).gap_watch == old(self).gap_watch,
    {
        let genesis = PhaseCertificate::genesis_pc();
        let mut wb = BlockTreeWriteBatch::new();
        wb.apply_app_state_updates(initial_app_state);
        let _ = wb.set_committed_validator_set(&initial_validator_set_state.committed_validator_set);
        let _ = wb.set_previous_validator_set(&initial_validator_set_state.previous_validator_set);
        match initial_validator_set_state.update_height {
            Some(height) => {
                let _ = wb.set_validator_set_update_block_height(height);
            },
            None => {},
        }
        let _ = wb.set_validator_set_update_decided(initial_validator_set_state.update_decided);
        let _ = wb.set_locked_pc(&genesis);
        let _ = wb.set_highest_view_entered(ViewNumber::init());
        let _ = wb.set_highest_pc(&genesis);
        assert(wb@ =~= initial_changes(*initial_app_state, *initial_validator_set_state, genesis));
        let ghost changes = wb@;
        self.write(wb);
        proof {
            if store::readable(old(self)@) {
                lemma_initial_changes_initialize(
                    old(self)@,
                    *initial_app_state,
                    *initial_validator_set_state,
                    genesis,
                );
            }
            assert(tree::advanced(*old(self), *self, seq![Deed::Persist(changes)]));
        }
        Ok(())
    }

    /// Insert `block`, whose updates take effect when it is committed. Where the children of its
    /// parent cannot be read, it is taken as the only one.
    pub fn insert(
        &mut self,
        block: &Block,
        app_state_updates: Option<&AppStateUpdates>,
        validator_set_updates: Option<&ValidatorSetUpdates>,
    ) -> (r: Result<(), BlockTreeError>)
        ensures
            r is Ok,
            tree::advanced(
                *old(self),
                *final(self),
                seq![
                    Deed::Persist(
                        insertion(
                            old(self)@,
                            *block,
                            deref_option(app_state_updates),
                            deref_option(validator_set_updates),
                        ),
                    ),
                ],
            ),
            final(self).gap_watch == old(self).gap_watch,
    {
        let mut wb = BlockTreeWriteBatch::new();
        self.stage_insert(&mut wb, block, app_state_updates, validator_set_updates);
        self.write(wb);
        Ok(())
    }

    /// Put the insertion of `block` into a batch.
    pub(crate) fn stage_insert(
        &self,
        wb: &mut BlockTreeWriteBatch,
        block: &Block,
        app_state_updates: Option<&AppStateUpdates>,
        validator_set_updates: Option<&ValidatorSetUpdates>,
    )
        requires
            old(wb)@.len() == 0,
        ensures
            final(wb)@ == insertion(
                self@,
                *block,
                deref_option(app_state_updates),
                deref_option(validator_set_updates),
            ),
    {
        let _ = wb.set_block(block);
        let _ = wb.set_newest_block(&block.hash);
        match app_state_updates {
            Some(updates) => {
                let _ = wb.set_pending_app_state_updates(&block.hash, updates);
            },
            None => {},
        }
        match validator_set_updates {
            Some(updates) => {
                let _ = wb.set_pending_validator_set_updates(&block.hash, updates);
            },
            None => {},
        }
        let mut siblings: Vec<CryptoHash> = match self.store.children.get(&block.justify.block) {
            Some(children) => copy_hashes(&*children.hashes),
            None => Vec::new(),
        };
        siblings.push(block.hash);
        assert(siblings@ =~= children_of(self@, block.justify.block).push(block.hash));
        let _ = wb.set_children(&block.justify.block, &ChildrenList::new(siblings));
        assert(wb@ =~= insertion(
            self@,
            *block,
            deref_option(app_state_updates),
            deref_option(validator_set_updates),
        ));
    }

    /// Publish the events of acting on a certificate.
    fn publish_update_block_tree_events(
        &mut self,
        update_highest_pc: Option<PhaseCertificate>,
        update_locked_pc: Option<PhaseCertificate>,
        committed_blocks: &Vec<(CryptoHash, Option<ValidatorSetUpdates>)>,
    )
        ensures
            tree::advanced(
                *old(self),
                *final(self),
                update_events(update_highest_pc, update_locked_pc, committed_blocks@),
            ),
            final(self).gap_watch == old(self).gap_watch,
    {
        let ghost mut done: Seq<Deed> = Seq::empty();
        proof {
            tree::lemma_advanced_refl(*self);
        }
        let ghost first = highest_event(update_highest_pc);
        let ghost second = locked_event(update_locked_pc);
        match update_highest_pc {
            Some(highest_pc) => {
                self.publish(Event::UpdateHighestPC { highest_pc });
            },
            None => {},
        }
        let ghost mid = *self;
        assert(tree::advanced(*old(self), *self, first));
        match update_locked_pc {
            Some(locked_pc) => {
                self.publish(Event::UpdateLockedPC { locked_pc });
            },
            None => {
                proof {
                    tree::lemma_advanced_refl(*self);
                }
            },
        }
        proof {
            tree::lemma_advanced_trans(*old(self), mid, *self, first, second);
            done = first + second;
        }
        let mut i: usize = 0;
        assert(committed_blocks@.take(0) =~= Seq::<CommittedBlock>::empty());
        assert(done + Seq::<Deed>::empty() =~= done);
        while i < committed_blocks.len()
            invariant
                i <= committed_blocks@.len(),
                tree::advanced(
                    *old(self),
                    *self,
                    done + all_commit_events(committed_blocks@.take(i as int)),
                ),
                self.gap_watch == old(self).gap_watch,
            decreases committed_blocks@.len() - i,
        {
            let ghost start = *self;
            let block = committed_blocks[i].0;
            self.publish(Event::PruneBlock { block });
            let ghost one = *self;
            self.publish(Event::CommitBlock { block });
            let ghost two = *self;
            proof {
                tree::lemma_advanced_trans(
                    start,
                    one,
                    two,
                    seq![published(Event::PruneBlock { block })],
                    seq![published(Event::CommitBlock { block })],
                );
                assert(seq![published(Event::PruneBlock { block })] + seq![
                    published(Event::CommitBlock { block }),
                ] =~= seq![
                    published(Event::PruneBlock { block }),
                    published(Event::CommitBlock { block }),
                ]);
            }
            match &committed_blocks[i].1 {
                Some(updates) => {
                    let event = Event::UpdateValidatorSet {
                        cause_block: block,
                        validator_set_updates: updates.clone(),
                    };
                    self.publish(event);
                    proof {
                        let plain = seq![
                            published(Event::PruneBlock { block }),
                            published(Event::CommitBlock { block }),
                        ];
                        tree::lemma_advanced_trans(start, two, *self, plain, seq![published(event)]);
                        assert(plain + seq![published(event)] =~= commit_events(
                            committed_blocks@[i as int],
                        ));
                    }
                },
                None => {
                    assert(committed_blocks@[i as int].1 is None);
                },
            }
            proof {
                assert(committed_blocks@.take(i + 1).drop_last() =~= committed_blocks@.take(
                    i as int,
                ));
                let so_far = done + all_commit_events(committed_blocks@.take(i as int));
                tree::lemma_advanced_trans(
                    *old(self),
                    start,
                    *self,
                    so_far,
                    commit_events(committed_blocks@[i as int]),
                );
                assert(so_far + commit_events(committed_blocks@[i as int]) =~= done
                    + all_commit_events(committed_blocks@.take(i + 1)));
            }
            i = i + 1;
        }
        assert(committed_blocks@.take(i as int) =~= committed_blocks@);
    }

    /// Put the changes to the highest certificate and the lock into a batch.
    fn stage_locks(&self, wb: &mut BlockTreeWriteBatch, justify: &PhaseCertificate) -> (r: (
        Option<PhaseCertificate>,
        Option<PhaseCertificate>,
    ))
        requires
            tree::initialized(self@),
        ensures
            final(wb)@ == old(wb)@ + lock_changes(self@, *justify),
            r.0 == new_highest(self@, *justify),
            r.1 == invariants::new_lock(self@, *justify),
    {
        let mut highest: Option<PhaseCertificate> = None;
        match self.highest_pc() {
            Ok(pc) => {
                if justify.view.0 > pc.view.0 {
                    let _ = wb.set_highest_pc(justify);
                    highest = Some(justify.clone());
                }
            },
            Err(_) => {},
        }
        let mut locked: Option<PhaseCertificate> = None;
        match pc_to_lock(justify, self) {
            Ok(Some(pc)) => {
                let _ = wb.set_locked_pc(&pc);
                locked = Some(pc);
            },
            _ => {},
        }
        assert(wb@ =~= old(wb)@ + lock_changes(self@, *justify));
        (highest, locked)
    }

    /// Do what follows the commit of one block.
    fn settle_commit<R: Roles>(&mut self, roles: &R, block: &CryptoHash)
        requires
            tree::initialized(old(self)@),
        ensures
            tree::advanced(*old(self), *final(self), settle_one(old(self)@, *roles, *block)),
            final(self).gap_watch == old(self).gap_watch,
    {
        let _ = self.promote_speculative_to_irrevocable(block);
        let ghost promoted = speculation::unspeculate(old(self)@, *block);
        let ghost mid = *self;
        proof {
            tree::lemma_replay_keeps_initialized(old(self)@, promoted);
        }
        match self.block_justify(block) {
            Ok(justify) => {
                if !justify.is_genesis_pc() && justify.view.0 < u64::MAX {
                    self.credit_leader_of(roles, ViewNumber(justify.view.0 + 1));
                    proof {
                        tree::lemma_advanced_trans(
                            *old(self),
                            mid,
                            *self,
                            promoted,
                            speculation::credit_view(mid@, *roles, ViewNumber((justify.view.0 + 1) as u64)),
                        );
                    }
                }
            },
            Err(_) => {},
        }
    }

    /// Act on a certificate that a safe block or nudge carries: take it as the highest
    /// certificate and lock on it where it is newer, commit what it commits, and note where it
    /// decides a change of validators. The changes are written in one batch.
    pub fn update<R: Roles>(&mut self, justify: &PhaseCertificate, roles: &R) -> (r: Result<
        UpdateResult,
        BlockTreeError,
    >)
        requires
            tree::initialized(old(self)@),
        ensures
            match update_outcome(old(self)@, *justify, *roles, old(self).retention) {
                Err(e) => r == Err::<UpdateResult, BlockTreeError>(e) && tree::advanced(
                    *old(self),
                    *final(self),
                    Seq::<Deed>::empty(),
                ),
                Ok((done, committed)) => {
                    &&& r is Ok
                    &&& r->Ok_0.committed_block_hashes@ == hashes_of(committed)
                    &&& r->Ok_0.validator_set_updates == latest_updates(committed)
                    &&& tree::advanced(*old(self), *final(self), done)
                },
            },
            tree::initialized(final(self)@),
            final(self).gap_watch == watch_after(old(self)@, *justify, old(self).gap_watch),
    {
        let wb = BlockTreeWriteBatch::new();
        self.update_staged(wb, justify, roles)
    }

    /// As [`Self::update`], with the changes of `staged` in the same batch. If there is an error,
    /// the staged changes are not written either.
    pub fn update_staged<R: Roles>(
        &mut self,
        staged: BlockTreeWriteBatch,
        justify: &PhaseCertificate,
        roles: &R,
    ) -> (r: Result<UpdateResult, BlockTreeError>)
        requires
            tree::initialized(old(self)@),
        ensures
            match staged_update_outcome(
                old(self)@,
                staged@,
                *justify,
                *roles,
                old(self).retention,
            ) {
                Err(e) => r == Err::<UpdateResult, BlockTreeError>(e) && tree::advanced(
                    *old(self),
                    *final(self),
                    Seq::<Deed>::empty(),
                ),
                Ok((done, committed)) => {
                    &&& r is Ok
                    &&& r->Ok_0.committed_block_hashes@ == hashes_of(committed)
                    &&& r->Ok_0.validator_set_updates == latest_updates(committed)
                    &&& tree::advanced(*old(self), *final(self), done)
                },
            },
            tree::initialized(final(self)@),
            final(self).gap_watch == watch_after(old(self)@, *justify, old(self).gap_watch),
    {
        let mut wb = staged;
        let (highest, locked) = self.stage_locks(&mut wb, justify);
        let ghost locks = staged@ + lock_changes(self@, *justify);
        assert(wb@ =~= locks);
        let target = match block_to_commit(justify, self) {
            Ok(target) => target,
            Err(e) => {
                proof {
                    tree::lemma_advanced_refl(*self);
                }
                return Err(e);
            },
        };
        let ghost commit_changes = justified_commit(old(self)@, *justify).0;
        let mut committed: Vec<(CryptoHash, Option<ValidatorSetUpdates>)> = Vec::new();
        assert(committed@ =~= Seq::<CommittedBlock>::empty());
        match target {
            Some(block) => {
                match self.commit(&mut wb, &block) {
                    Ok(blocks) => {
                        committed = blocks;
                    },
                    Err(e) => {
                        proof {
                            assert(old(self).deeds() + Seq::<Deed>::empty() =~= old(self).deeds());
                        }
                        return Err(e);
                    },
                }
            },
            None => {},
        }
        assert(wb@ =~= locks + commit_changes);
        if justify.phase.is_decide() {
            let _ = wb.set_validator_set_update_decided(true);
        }
        let ghost changes = locks + commit_changes + decision(*justify);
        assert(wb@ =~= changes);
        let ghost written = seq![Deed::Persist(changes)];
        let ghost unwritten = *self;
        self.write(wb);
        let ghost t1 = *self;
        proof {
            assert(tree::advanced(*old(self), t1, written));
            tree::lemma_replay_keeps_initialized(old(self)@, written);
        }
        let ghost credited = credit_news(
            t1@,
            *roles,
            is_news(old(self)@, *justify),
            *justify,
        );
        if highest.is_some() && !justify.is_genesis_pc() {
            self.credit_leader_of(roles, justify.view);
        } else {
            proof {
                tree::lemma_advanced_refl(t1);
            }
        }
        let ghost t2 = *self;
        proof {
            tree::lemma_advanced_trans(*old(self), t1, t2, written, credited);
            tree::lemma_replay_keeps_initialized(old(self)@, written + credited);
            tree::lemma_advanced_refl(t2);
        }
        let mut i: usize = 0;
        assert(committed@.take(0) =~= Seq::<CommittedBlock>::empty());
        while i < committed.len()
            invariant
                i <= committed@.len(),
                tree::initialized(t2@),
                tree::initialized(self@),
                tree::advanced(t2, *self, settle_all(t2@, *roles, committed@.take(i as int))),
                self.gap_watch == t2.gap_watch,
            decreases committed@.len() - i,
        {
            let ghost before = *self;
            let ghost so_far = settle_all(t2@, *roles, committed@.take(i as int));
            let block = committed[i].0;
            self.settle_commit(roles, &block);
            proof {
                assert(committed@.take(i + 1).drop_last() =~= committed@.take(i as int));
                let step = settle_one(before@, *roles, block);
                tree::lemma_advanced_trans(t2, before, *self, so_far, step);
                tree::lemma_replay_keeps_initialized(t2@, so_far + step);
            }
            i = i + 1;
        }
        assert(committed@.take(i as int) =~= committed@);
        let ghost settled = settle_all(t2@, *roles, committed@);
        let ghost t3 = *self;
        proof {
            tree::lemma_advanced_trans(*old(self), t2, t3, written + credited, settled);
        }
        self.publish_update_block_tree_events(highest, locked, &committed);
        let ghost events = update_events(highest, locked, committed@);
        let ghost t4 = *self;
        let ghost before_pruning = written + credited + settled + events;
        proof {
            tree::lemma_advanced_trans(*old(self), t3, t4, written + credited + settled, events);
            tree::lemma_advanced_refl(t4);
            tree::lemma_replay_keeps_initialized(old(self)@, before_pruning);
            assert(before_pruning + Seq::<Deed>::empty() =~= before_pruning);
        }
        let committed_block_hashes = collect_hashes(&committed);
        if committed.len() > 0 {
            let _ = self.prune_old_committed_blocks();
            proof {
                tree::lemma_advanced_trans(
                    *old(self),
                    t4,
                    *self,
                    before_pruning,
                    pruning::prune_deeds(t4@, old(self).retention),
                );
            }
        }
        proof {
            let pruned = if committed@.len() == 0 {
                Seq::empty()
            } else {
                pruning::prune_deeds(tree::replay(old(self)@, before_pruning), old(self).retention)
            };
            tree::lemma_replay_keeps_initialized(old(self)@, before_pruning + pruned);
        }
        let validator_set_updates = find_latest_updates(&committed);
        Ok(UpdateResult { validator_set_updates, committed_block_hashes })
    }

    /// Move the highest certificate and the lock on upon seeing `justify`, and note where it
    /// decides a change of validators, without committing anything.
    pub fn update_locks_only<R: Roles>(&mut self, justify: &PhaseCertificate, roles: &R) -> (r:
        Result<(), BlockTreeError>)
        requires
            tree::initialized(old(self)@),
        ensures
            r is Ok,
            tree::advanced(*old(self), *final(self), locks_only_deeds(old(self)@, *justify, *roles)),
            tree::initialized(final(self)@),
            final(self).gap_watch == old(self).gap_watch,
    {
        let mut wb = BlockTreeWriteBatch::new();
        let (highest, locked) = self.stage_locks(&mut wb, justify);
        if justify.phase.is_decide() {
            let _ = wb.set_validator_set_update_decided(true);
        }
        let ghost changes = lock_changes(self@, *justify) + decision(*justify);
        assert(wb@ =~= changes);
        let ghost written = seq![Deed::Persist(changes)];
        self.write(wb);
        let ghost t1 = *self;
        proof {
            tree::lemma_replay_keeps_initialized(old(self)@, written);
        }
        let ghost credited = credit_news(
            t1@,
            *roles,
            is_news(old(self)@, *justify),
            *justify,
        );
        if highest.is_some() && !justify.is_genesis_pc() {
            self.credit_leader_of(roles, justify.view);
        } else {
            proof {
                tree::lemma_advanced_refl(t1);
            }
        }
        let ghost t2 = *self;
        proof {
            tree::lemma_advanced_trans(*old(self), t1, t2, written, credited);
        }
        let nothing: Vec<(CryptoHash, Option<ValidatorSetUpdates>)> = Vec::new();
        assert(nothing@ =~= Seq::<CommittedBlock>::empty());
        self.publish_update_block_tree_events(highest, locked, &nothing);
        proof {
            let events = update_events(highest, locked, Seq::empty());
            tree::lemma_advanced_trans(*old(self), t2, *self, written + credited, events);
            tree::lemma_replay_keeps_initialized(old(self)@, written + credited + events);
        }
        Ok(())
    }
}

/// One of the variables that initialization gives a value.
enum Initial {
    CommittedValidators,
    PreviousValidators,
    UpdateDecided,
    LockedPC,
    HighestPC,
    HighestViewEntered,
}

/// Whether a variable has a value.
spec fn has_value(tree: TreeView, variable: Initial) -> bool {
    match variable {
        Initial::CommittedValidators => tree.committed_validators is Some,
        Initial::PreviousValidators => tree.previous_validators is Some,
        Initial::UpdateDecided => tree.update_decided is Some,
        Initial::LockedPC => tree.locked_pc is Some,
        Initial::HighestPC => tree.highest_pc is Some,
        Initial::HighestViewEntered => tree.highest_view_entered is Some,
    }
}

/// Whether a change gives a variable a value.
spec fn gives_value(change: Change, variable: Initial) -> bool {
    match variable {
        Initial::CommittedValidators => change is CommittedValidators,
        Initial::PreviousValidators => change is PreviousValidators,
        Initial::UpdateDecided => change is Plain
            && change->Plain_0 is SetValidatorSetUpdateDecided,
        Initial::LockedPC => change is Plain && change->Plain_0 is SetLockedPC,
        Initial::HighestPC => change is Plain && change->Plain_0 is SetHighestPC,
        Initial::HighestViewEntered => change is Plain && change->Plain_0 is SetHighestViewEntered,
    }
}

/// A variable that was given a value keeps one.
proof fn lemma_value_given(tree: TreeView, changes: Seq<Change>, at: int, variable: Initial)
    requires
        0 <= at < changes.len(),
        gives_value(changes[at], variable),
    ensures
        has_value(store::apply_changes(tree, changes), variable),
    decreases changes.len(),
{
    if at < changes.len() - 1 {
        lemma_value_given(tree, changes.drop_last(), at, variable);
    }
}

proof fn lemma_initial_changes_initialize(
    tree: TreeView,
    app_state: AppStateUpdates,
    validators: ValidatorSetState,
    genesis: PhaseCertificate,
)
    requires
        store::readable(tree),
    ensures
        tree::initialized(store::apply_changes(tree, initial_changes(app_state, validators, genesis))),
{
    store::lemma_stays_readable(tree, initial_changes(app_state, validators, genesis));
    let all = initial_changes(app_state, validators, genesis);
    let n = all.len() as int;
    let base = write_batch::app_state_changes(app_state).len() as int;
    assert(all[base] == Change::CommittedValidators(validators.committed_validator_set@));
    assert(all[base + 1] == Change::PreviousValidators(validators.previous_validator_set@));
    assert(all[n - 4] == Change::Plain(
        WriteOp::SetValidatorSetUpdateDecided(validators.update_decided),
    ));
    assert(all[n - 3] == Change::Plain(WriteOp::SetLockedPC(genesis)));
    assert(all[n - 2] == Change::Plain(WriteOp::SetHighestViewEntered(ViewNumber(0))));
    assert(all[n - 1] == Change::Plain(WriteOp::SetHighestPC(genesis)));
    lemma_value_given(tree, all, base, Initial::CommittedValidators);
    lemma_value_given(tree, all, base + 1, Initial::PreviousValidators);
    lemma_value_given(tree, all, n - 4, Initial::UpdateDecided);
    lemma_value_given(tree, all, n - 3, Initial::LockedPC);
    lemma_value_given(tree, all, n - 2, Initial::HighestViewEntered);
    lemma_value_given(tree, all, n - 1, Initial::HighestPC);
}

} // verus!

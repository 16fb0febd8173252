//! Single variables of the block tree: views, votes, tips and the application feed.

use vstd::prelude::*;

use crate::block_tree::cells;
use crate::block_tree::cells::{Cell, APP_FED_BLOCK_HEIGHT, LAST_VOTED_PROPOSAL, LOCAL_TIP};
use crate::block_tree::errors;
use crate::block_tree::errors::{BlockTreeError, Key};
use crate::block_tree::persisting::single_key;
use crate::block_tree::reading;
use crate::block_tree::store;
use crate::block_tree::store::TreeView;
use crate::block_tree::tree;
use crate::block_tree::tree::BlockTreeSingleton;
use crate::block_tree::updates;
use crate::block_tree::write_batch::{BlockTreeWriteBatch, Change, WriteOp};
use crate::effects::Deed;
use crate::events::Event;
use crate::hotstuff::types::PhaseCertificate;
use crate::pacemaker::{TimeoutCertificate, TipInfo};
use crate::types::data_types::{BlockHeight, CryptoHash, ViewNumber};

verus! {

/// The deed of writing one change on its own.
pub open spec fn written(op: WriteOp) -> Seq<Deed> {
    seq![Deed::Persist(seq![Change::Plain(op)])]
}

/// The deed of recording a vote: the view voted in and the proposal voted for, in one batch.
pub open spec fn vote_recorded(view: ViewNumber, block: CryptoHash) -> Seq<Deed> {
    seq![
        Deed::Persist(
            seq![
                Change::Plain(WriteOp::SetHighestViewPhaseVoted(view)),
                Change::Plain(WriteOp::SetLastVotedProposal(view, block)),
            ],
        ),
    ]
}

/// The deeds of taking note of a certificate seen elsewhere.
pub open spec fn remote_pc_deeds(tree: TreeView, pc: PhaseCertificate) -> Seq<Deed> {
    let highest = if updates::is_news(tree, pc) {
        seq![Change::Plain(WriteOp::SetHighestPC(pc))]
    } else {
        Seq::empty()
    };
    seq![Deed::Persist(highest + updates::decision(pc))] + updates::highest_event(updates::new_highest(tree, pc))
}

/// The certificate to report in a timeout vote: the highest one, unless it is the genesis
/// certificate or older than the local tip.
pub open spec fn timeout_qc(tree: TreeView) -> Option<PhaseCertificate> {
    let highest = tree.highest_pc->0;
    if highest.is_genesis() {
        None
    } else {
        match tree.local_tip {
            Some(tip) => if highest.view.0 < tip.view.0 {
                None
            } else {
                Some(highest)
            },
            None => Some(highest),
        }
    }
}

/// The larger of two numbers.
pub open spec fn larger(a: u64, b: u64) -> u64 {
    if a >= b {
        a
    } else {
        b
    }
}

/// The highest view in which the replica made progress: the highest of the view entered, the view
/// of the highest certificate and the view of the highest timeout certificate.
pub open spec fn view_with_progress(tree: TreeView) -> u64 {
    let timed_out = match tree.highest_tc {
        Some(tc) => tc.view.0,
        None => 0,
    };
    larger(
        (tree.highest_view_entered->0).0,
        larger((tree.highest_pc->0).view.0, timed_out),
    )
}

/// Why the highest view with progress cannot be told, if it cannot.
pub open spec fn progress_fault(tree: TreeView) -> Option<BlockTreeError> {
    let entered = tree::needed(
        tree,
        Cell::HighestViewEntered,
        Key::HighestViewEntered,
        tree.highest_view_entered,
    );
    let certified = tree::needed(tree, Cell::HighestPC, Key::HighestPC, tree.highest_pc);
    if entered is Err {
        Some(entered->Err_0)
    } else if certified is Err {
        Some(certified->Err_0)
    } else if store::unread_at(tree, Cell::HighestTC) {
        Some(errors::undecodable(Key::HighestTC))
    } else {
        None
    }
}

impl BlockTreeSingleton {
    /// Write one change on its own.
    fn write_one(&mut self, op: WriteOp)
        requires
            op@ == Change::Plain(op),
        ensures
            tree::advanced(*old(self), *final(self), written(op)),
            final(self).gap_watch == old(self).gap_watch,
    {
        let mut wb = BlockTreeWriteBatch::new();
        wb.push(op);
        assert(wb@ =~= seq![Change::Plain(op)]);
        self.write(wb);
    }

    /// Set the highest timeout certificate.
    pub fn set_highest_tc(&mut self, tc: &TimeoutCertificate) -> (r: Result<(), BlockTreeError>)
        ensures
            r is Ok,
            tree::advanced(*old(self), *final(self), written(WriteOp::SetHighestTC(*tc))),
            final(self).gap_watch == old(self).gap_watch,
    {
        self.write_one(WriteOp::SetHighestTC(tc.clone()));
        Ok(())
    }

    /// Take note of a certificate seen elsewhere, whose block may not be in the tree: it may
    /// become the highest certificate and decide a change of validators, and commits nothing.
    pub fn advance_highest_pc_from_remote(&mut self, pc: &PhaseCertificate) -> (r: Result<
        (),
        BlockTreeError,
    >)
        requires
            tree::initialized(old(self)@),
        ensures
            r is Ok,
            tree::advanced(*old(self), *final(self), remote_pc_deeds(old(self)@, *pc)),
            tree::initialized(final(self)@),
            final(self).gap_watch == old(self).gap_watch,
    {
        let highest = match self.highest_pc() {
            Ok(highest) => highest,
            Err(e) => {
                return Err(e);
            },
        };
        let news = pc.view.0 > highest.view.0;
        let mut wb = BlockTreeWriteBatch::new();
        if news {
            let _ = wb.set_highest_pc(pc);
        }
        if pc.phase.is_decide() {
            let _ = wb.set_validator_set_update_decided(true);
        }
        let ghost first = seq![Deed::Persist(wb@)];
        proof {
            let changes = if updates::is_news(self@, *pc) {
                seq![Change::Plain(WriteOp::SetHighestPC(*pc))]
            } else {
                Seq::empty()
            };
            assert(wb@ =~= changes + updates::decision(*pc));
        }
        self.write(wb);
        let ghost mid = *self;
        if news {
            self.publish(Event::UpdateHighestPC { highest_pc: pc.clone() });
        } else {
            proof {
                tree::lemma_advanced_refl(mid);
            }
        }
        proof {
            let second = updates::highest_event(updates::new_highest(old(self)@, *pc));
            tree::lemma_advanced_trans(*old(self), mid, *self, first, second);
            tree::lemma_replay_keeps_initialized(old(self)@, first + second);
        }
        Ok(())
    }

    /// Set the highest view entered.
    pub fn set_highest_view_entered(&mut self, view: ViewNumber) -> (r: Result<(), BlockTreeError>)
        ensures
            r is Ok,
            tree::advanced(*old(self), *final(self), written(WriteOp::SetHighestViewEntered(view))),
            final(self).gap_watch == old(self).gap_watch,
    {
        self.write_one(WriteOp::SetHighestViewEntered(view));
        Ok(())
    }

    /// Set the highest view voted in.
    pub fn set_highest_view_phase_voted(&mut self, view: ViewNumber) -> (r: Result<
        (),
        BlockTreeError,
    >)
        ensures
            r is Ok,
            tree::advanced(*old(self), *final(self), written(WriteOp::SetHighestViewPhaseVoted(view))),
            final(self).gap_watch == old(self).gap_watch,
    {
        self.write_one(WriteOp::SetHighestViewPhaseVoted(view));
        Ok(())
    }

    /// Record a vote: the view voted in and the proposal voted for, in one batch.
    pub fn set_vote_state_atomic(&mut self, view: ViewNumber, block: CryptoHash) -> (r: Result<
        (),
        BlockTreeError,
    >)
        ensures
            r is Ok,
            tree::advanced(*old(self), *final(self), vote_recorded(view, block)),
            final(self).gap_watch == old(self).gap_watch,
    {
        let mut wb = BlockTreeWriteBatch::new();
        let _ = wb.set_highest_view_phase_voted(view);
        wb.push(WriteOp::SetLastVotedProposal(view, block));
        assert(wb@ =~= seq![
            Change::Plain(WriteOp::SetHighestViewPhaseVoted(view)),
            Change::Plain(WriteOp::SetLastVotedProposal(view, block)),
        ]);
        self.write(wb);
        Ok(())
    }

    /// The header of the latest fresh proposal that this replica voted for.
    pub fn local_tip(&self) -> (r: Result<Option<TipInfo>, BlockTreeError>)
        ensures
            r == tree::readable_or(self@, Cell::LocalTip, Key::HighestTC, self@.local_tip),
    {
        match self.store.see_readable(single_key(LOCAL_TIP), Key::HighestTC, Ghost(Cell::LocalTip)) {
            Ok(()) => match &self.store.local_tip {
                Some(tip) => Ok(Some(tip.clone())),
                None => Ok(None),
            },
            Err(e) => Err(e),
        }
    }

    /// Set the local tip.
    pub fn set_local_tip(&mut self, tip: &TipInfo) -> (r: Result<(), BlockTreeError>)
        ensures
            r is Ok,
            tree::advanced(*old(self), *final(self), written(WriteOp::SetLocalTip(*tip))),
            final(self).gap_watch == old(self).gap_watch,
    {
        self.write_one(WriteOp::SetLocalTip(tip.clone()));
        Ok(())
    }

    /// The certificate to report in a timeout vote.
    pub fn highest_qc_for_timeout(&self) -> (r: Result<Option<PhaseCertificate>, BlockTreeError>)
        ensures
            r == (match tree::needed(self@, Cell::HighestPC, Key::HighestPC, self@.highest_pc) {
                Ok(highest) => if highest.is_genesis() {
                    Ok(None)
                } else {
                    tree::readable_or(self@, Cell::LocalTip, Key::HighestTC, timeout_qc(self@))
                },
                Err(e) => Err(e),
            }),
    {
        let highest = match self.highest_pc() {
            Ok(highest) => highest,
            Err(e) => {
                return Err(e);
            },
        };
        if highest.is_genesis_pc() {
            return Ok(None);
        }
        match self.local_tip() {
            Ok(Some(tip)) => if highest.view.0 < tip.view.0 {
                Ok(None)
            } else {
                Ok(Some(highest))
            },
            Ok(None) => Ok(Some(highest)),
            Err(e) => Err(e),
        }
    }

    /// The view and block of the last proposal that this replica voted for.
    pub fn last_voted_proposal(&self) -> (r: Result<
        Option<(ViewNumber, CryptoHash)>,
        BlockTreeError,
    >)
        ensures
            r == tree::readable_or(
                self@,
                Cell::LastVotedProposal,
                Key::HighestTC,
                self@.last_voted_proposal,
            ),
    {
        match self.store.see_readable(
            single_key(LAST_VOTED_PROPOSAL),
            Key::HighestTC,
            Ghost(Cell::LastVotedProposal),
        ) {
            Ok(()) => Ok(self.store.last_voted_proposal),
            Err(e) => Err(e),
        }
    }

    /// Record the view and block of the proposal that this replica just voted for.
    pub fn set_last_voted_proposal(&mut self, view: ViewNumber, block: CryptoHash) -> (r: Result<
        (),
        BlockTreeError,
    >)
        ensures
            r is Ok,
            tree::advanced(*old(self), *final(self), written(WriteOp::SetLastVotedProposal(view, block))),
            final(self).gap_watch == old(self).gap_watch,
    {
        self.write_one(WriteOp::SetLastVotedProposal(view, block));
        Ok(())
    }

    /// The highest committed height that was delivered to the application; `None` if none was.
    pub fn app_fed_block_height(&self) -> (r: Result<Option<BlockHeight>, BlockTreeError>)
        ensures
            r == tree::readable_or(
                self@,
                Cell::AppFedHeight,
                Key::HighestCommittedBlock,
                self@.app_fed_height,
            ),
    {
        match self.store.see_readable(
            single_key(APP_FED_BLOCK_HEIGHT),
            Key::HighestCommittedBlock,
            Ghost(Cell::AppFedHeight),
        ) {
            Ok(()) => Ok(self.store.app_fed_height),
            Err(e) => Err(e),
        }
    }

    /// Record that committed blocks up to `height` were delivered to the application.
    pub fn advance_app_fed_block_height(&mut self, height: BlockHeight) -> (r: Result<
        (),
        BlockTreeError,
    >)
        ensures
            r is Ok,
            tree::advanced(*old(self), *final(self), written(WriteOp::SetAppFedHeight(height))),
            final(self).gap_watch == old(self).gap_watch,
    {
        self.write_one(WriteOp::SetAppFedHeight(height));
        Ok(())
    }

    /// The highest view in which the replica made progress, after which it resumes when it is
    /// started again.
    pub fn highest_view_with_progress(&self) -> (r: Result<ViewNumber, BlockTreeError>)
        ensures
            match r {
                Ok(view) => progress_fault(self@) is None && view.0 == view_with_progress(self@),
                Err(e) => progress_fault(self@) == Some(e),
            },
    {
        let entered: u64 = match self.highest_view_entered() {
            Ok(view) => view.0,
            Err(e) => {
                return Err(e);
            },
        };
        let certified: u64 = match self.highest_pc() {
            Ok(pc) => pc.view.0,
            Err(e) => {
                return Err(e);
            },
        };
        let timed_out: u64 = match self.highest_tc() {
            Ok(Some(tc)) => tc.view.0,
            Ok(None) => 0,
            Err(e) => {
                return Err(e);
            },
        };
        let best: u64 = if certified >= timed_out {
            certified
        } else {
            timed_out
        };
        Ok(
            ViewNumber(
                if entered >= best {
                    entered
                } else {
                    best
                },
            ),
        )
    }

    /// The view of the certificate that justifies the highest committed block; zero while nothing
    /// is committed.
    pub fn committed_qc_view(&self) -> (r: Result<ViewNumber, BlockTreeError>)
        ensures
            store::unread_at(self@, Cell::HighestCommittedBlock) ==> r == Err::<
                ViewNumber,
                BlockTreeError,
            >(errors::undecodable(Key::HighestCommittedBlock)),
            !store::unread_at(self@, Cell::HighestCommittedBlock) ==> match self@.highest_committed_block {
                Some(block) => if self@.blocks.contains_key(block) {
                    r == Ok::<ViewNumber, BlockTreeError>(self@.blocks[block].justify.view)
                } else {
                    exists|justify: Result<PhaseCertificate, BlockTreeError>| #[trigger]
                        reading::is_read_needed(
                            cells::content(self@.unread, Cell::BlockJustify(block)),
                            Key::BlockJustify { block },
                            justify,
                        ) && r == (match justify {
                            Ok(justify) => Ok(justify.view),
                            Err(e) => Err(e),
                        })
                },
                None => r == Ok::<ViewNumber, BlockTreeError>(ViewNumber(0)),
            },
            store::readable(self@) ==> r == (match self@.highest_committed_block {
                Some(block) => if self@.blocks.contains_key(block) {
                    Ok(self@.blocks[block].justify.view)
                } else {
                    Err(errors::not_found(Key::BlockJustify { block }))
                },
                None => Ok(ViewNumber(0)),
            }),
    {
        match self.highest_committed_block() {
            Ok(Some(block)) => {
                let justify = self.block_justify(&block);
                assert(!self@.blocks.contains_key(block) ==> reading::is_read_needed(
                    cells::content(self@.unread, Cell::BlockJustify(block)),
                    Key::BlockJustify { block },
                    justify,
                ));
                match justify {
                    Ok(justify) => Ok(justify.view),
                    Err(e) => Err(e),
                }
            },
            Ok(None) => Ok(ViewNumber(0)),
            Err(e) => Err(e),
        }
    }
}

} // verus!

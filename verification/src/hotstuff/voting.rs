//! Voting. What a replica needs to remember of a vote is durable before the vote leaves it.

use vstd::prelude::*;

use crate::block_tree::tree;
use crate::block_tree::tree::BlockTreeSingleton;
use crate::block_tree::variables;
use crate::block_tree::write_batch::WriteOp;
use crate::codec;
use crate::effects::{Deed, Effect};
use crate::events::Event;
use crate::hotstuff::messages::{HotStuffMessage, PhaseVote};
use crate::hotstuff::state;
use crate::hotstuff::state::{HotStuff, HsView, Run};
use crate::hotstuff::types::{Phase, PhaseCertificate};
use crate::pacemaker::TipInfo;
use crate::roles::Roles;
use crate::types::data_types::{CryptoHash, VerifyingKey};

verus! {

/// The vote of a participant for a phase of a block in its view.
pub open spec fn vote_of(hs: HsView, block: CryptoHash, phase: Phase) -> PhaseVote {
    PhaseVote {
        chain_id: hs.chain_id,
        view: hs.view_info.view,
        block,
        phase,
        signature: hs.keypair.signature_of(
            codec::vote_message(hs.chain_id, hs.view_info.view, block, phase),
        ),
    }
}

/// The deed of sending a message to a peer.
pub open spec fn sent(to: VerifyingKey, message: HotStuffMessage) -> Seq<Deed> {
    seq![Deed::Other(Effect::Send(to, message))]
}

/// Whether a participant may vote on the strength of `justify`: it has a vote, and it has not used
/// it in this view.
pub open spec fn may_vote<R: Roles>(run: Run, roles: R, justify: PhaseCertificate) -> bool {
    &&& roles.votes(run.hs.keypair.public_key(), tree::validators_of(run.tree), justify)
    &&& match run.tree.highest_view_phase_voted {
        Some(view) => view.0 < run.hs.view_info.view.0,
        None => true,
    }
}

/// Who counts a vote.
pub open spec fn counter_of<R: Roles>(run: Run, roles: R, vote: PhaseVote) -> VerifyingKey {
    roles.vote_recipient(vote, tree::validators_of(run.tree), tree::reputation_of(run.tree).0)
}

/// A vote that leaves: it is sent, and observers are told.
pub open spec fn vote_left(run: Run, to: VerifyingKey, vote: PhaseVote) -> Run {
    state::told(state::did(run, sent(to, HotStuffMessage::PhaseVote(vote))), Event::PhaseVote { vote })
}

/// A vote for a block: the vote and the new tip are recorded, and then the vote leaves.
pub open spec fn voted<R: Roles>(
    run: Run,
    roles: R,
    block: CryptoHash,
    phase: Phase,
    tip: Option<TipInfo>,
) -> Run {
    let vote = vote_of(run.hs, block, phase);
    let recorded = state::did(run, variables::vote_recorded(run.hs.view_info.view, block));
    let tipped = match tip {
        Some(tip) => state::did(recorded, variables::written(WriteOp::SetLocalTip(tip))),
        None => recorded,
    };
    vote_left(tipped, counter_of(run, roles, vote), vote)
}

/// A vote for a further phase of a block: the view is recorded as voted in, and then the vote
/// leaves.
pub open spec fn phase_voted<R: Roles>(
    run: Run,
    roles: R,
    block: CryptoHash,
    phase: Phase,
) -> Run {
    let vote = vote_of(run.hs, block, phase);
    let recorded = state::did(
        run,
        variables::written(WriteOp::SetHighestViewPhaseVoted(run.hs.view_info.view)),
    );
    vote_left(recorded, counter_of(run, roles, vote), vote)
}

impl HotStuff {
    /// Whether the participant may vote on the strength of `justify`.
    pub(crate) fn is_allowed_to_vote<R: Roles>(
        &self,
        justify: &PhaseCertificate,
        block_tree: &BlockTreeSingleton,
        roles: &R,
        Ghost(start): Ghost<BlockTreeSingleton>,
        Ghost(run): Ghost<Run>,
    ) -> (r: bool)
        requires
            state::reached(start, *self, *block_tree, run),
            tree::initialized(run.tree),
        ensures
            r == may_vote(run, *roles, *justify),
    {
        let unused = match block_tree.highest_view_voted() {
            Ok(Some(view)) => view.0 < self.view_info.view.0,
            _ => true,
        };
        match block_tree.validator_set_state() {
            Ok(state) => roles.is_phase_voter(&self.config.keypair.public(), &state, justify)
                && unused,
            Err(_) => false,
        }
    }

    fn make_vote(&self, block: CryptoHash, phase: Phase) -> (r: PhaseVote)
        ensures
            r == vote_of(self@, block, phase),
    {
        let vote = PhaseVote::new(
            &self.config.keypair,
            self.config.chain_id,
            self.view_info.view,
            block,
            phase,
        );
        proof {
            self.config.keypair.lemma_signature_of(
                codec::vote_message(self@.chain_id, self@.view_info.view, block, phase),
                vote.signature,
            );
        }
        vote
    }

    fn find_counter<R: Roles>(
        &self,
        vote: &PhaseVote,
        block_tree: &BlockTreeSingleton,
        roles: &R,
        Ghost(run): Ghost<Run>,
    ) -> (r: VerifyingKey)
        requires
            tree::initialized(run.tree),
            block_tree@ == run.tree,
        ensures
            r == counter_of(run, *roles, *vote),
    {
        match block_tree.validator_set_state() {
            Ok(state) => match block_tree.leader_reputation() {
                Ok(reputation) => roles.phase_vote_recipient_with_reputation(
                    vote,
                    &state,
                    &reputation,
                ),
                Err(_) => self.config.keypair.public(),
            },
            Err(_) => self.config.keypair.public(),
        }
    }

    fn let_vote_leave(
        &self,
        to: VerifyingKey,
        vote: PhaseVote,
        block_tree: &mut BlockTreeSingleton,
        Ghost(start): Ghost<BlockTreeSingleton>,
        Ghost(run): Ghost<Run>,
    )
        requires
            state::reached(start, *self, *old(block_tree), run),
            tree::initialized(run.tree),
        ensures
            state::reached(start, *self, *final(block_tree), vote_left(run, to, vote)),
            tree::initialized(vote_left(run, to, vote).tree),
    {
        let ghost before = *block_tree;
        block_tree.emit(Effect::Send(to, HotStuffMessage::PhaseVote(vote)));
        let ghost deeds = sent(to, HotStuffMessage::PhaseVote(vote));
        let ghost mid = *block_tree;
        proof {
            state::lemma_did(start, *self, before, mid, run, deeds);
        }
        block_tree.publish(Event::PhaseVote { vote });
        proof {
            state::lemma_did(
                start,
                *self,
                mid,
                *block_tree,
                state::did(run, deeds),
                seq![Deed::Other(Effect::Publish(Event::PhaseVote { vote }))],
            );
        }
    }

    /// Vote for a block.
    pub(crate) fn cast_vote<R: Roles>(
        &self,
        block: CryptoHash,
        phase: Phase,
        tip: Option<TipInfo>,
        block_tree: &mut BlockTreeSingleton,
        roles: &R,
        Ghost(start): Ghost<BlockTreeSingleton>,
        Ghost(run): Ghost<Run>,
    )
        requires
            state::reached(start, *self, *old(block_tree), run),
            tree::initialized(run.tree),
        ensures
            state::reached(start, *self, *final(block_tree), voted(run, *roles, block, phase, tip)),
            tree::initialized(voted(run, *roles, block, phase, tip).tree),
    {
        let vote = self.make_vote(block, phase);
        let to = self.find_counter(&vote, block_tree, roles, Ghost(run));
        let ghost before = *block_tree;
        let _ = block_tree.set_vote_state_atomic(self.view_info.view, block);
        let ghost deeds = variables::vote_recorded(run.hs.view_info.view, block);
        let ghost mut current = state::did(run, deeds);
        proof {
            state::lemma_did(start, *self, before, *block_tree, run, deeds);
        }
        match &tip {
            Some(tip) => {
                let ghost before = *block_tree;
                let _ = block_tree.set_local_tip(tip);
                proof {
                    let deeds = variables::written(WriteOp::SetLocalTip(*tip));
                    state::lemma_did(start, *self, before, *block_tree, current, deeds);
                    current = state::did(current, deeds);
                }
            },
            None => {},
        }
        self.let_vote_leave(to, vote, block_tree, Ghost(start), Ghost(current));
    }

    /// Vote for a further phase of a block.
    pub(crate) fn cast_phase_vote<R: Roles>(
        &self,
        block: CryptoHash,
        phase: Phase,
        block_tree: &mut BlockTreeSingleton,
        roles: &R,
        Ghost(start): Ghost<BlockTreeSingleton>,
        Ghost(run): Ghost<Run>,
    )
        requires
            state::reached(start, *self, *old(block_tree), run),
            tree::initialized(run.tree),
        ensures
            state::reached(start, *self, *final(block_tree), phase_voted(run, *roles, block, phase)),
            tree::initialized(phase_voted(run, *roles, block, phase).tree),
    {
        let vote = self.make_vote(block, phase);
        let to = self.find_counter(&vote, block_tree, roles, Ghost(run));
        let ghost before = *block_tree;
        let _ = block_tree.set_highest_view_phase_voted(self.view_info.view);
        let ghost deeds = variables::written(WriteOp::SetHighestViewPhaseVoted(run.hs.view_info.view));
        proof {
            state::lemma_did(start, *self, before, *block_tree, run, deeds);
        }
        self.let_vote_leave(to, vote, block_tree, Ghost(start), Ghost(state::did(run, deeds)));
    }
}

} // verus!

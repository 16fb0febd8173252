//! What leaves a replica during a step: what it says, to whom, and in which order.

use vstd::prelude::*;

use crate::block_tree::commit::CommittedBlock;
use crate::block_tree::laws;
use crate::block_tree::life_laws;
use crate::block_tree::sparing;
use crate::block_tree::sparing::Kind;
use crate::block_tree::store;
use crate::block_tree::tree;
use crate::block_tree::updates;
use crate::block_tree::variables;
use crate::block_tree::write_batch::{Change, WriteOp};
use crate::codec;
use crate::committed_feed;
use crate::effects::{Deed, Effect};
use crate::events::Event;
use crate::hotstuff::acting;
use crate::hotstuff::messages::{HotStuffMessage, PhaseVote};
use crate::hotstuff::order_laws;
use crate::hotstuff::state;
use crate::hotstuff::state::Run;
use crate::hotstuff::types::{Phase, PhaseCertificate};
use crate::roles::Roles;
use crate::types::data_types::{CryptoHash, VerifyingKey};

verus! {

/// Whether something leaves the replica: a message to a peer or to all validators, or a request for
/// a body.
pub open spec fn leaves(deed: Deed) -> bool {
    match deed {
        Deed::Other(Effect::Send(_, _)) => true,
        Deed::Other(Effect::Broadcast(_)) => true,
        Deed::Other(Effect::BroadcastAdvanceView(_)) => true,
        Deed::Other(Effect::RequestBlockData(_, _)) => true,
        _ => false,
    }
}

/// What leaves the replica, in order.
pub open spec fn said(deeds: Seq<Deed>) -> Seq<Deed>
    decreases deeds.len(),
{
    if deeds.len() == 0 {
        Seq::empty()
    } else if leaves(deeds.last()) {
        said(deeds.drop_last()).push(deeds.last())
    } else {
        said(deeds.drop_last())
    }
}

/// A message to a peer.
pub open spec fn to_peer(peer: VerifyingKey, message: HotStuffMessage) -> Deed {
    Deed::Other(Effect::Send(peer, message))
}

/// A message to all validators.
pub open spec fn to_all(message: HotStuffMessage) -> Deed {
    Deed::Other(Effect::Broadcast(message))
}

/// Whether a vote is the participant's own for a phase of a block in the view that it is in: it is
/// for its chain, and the signature is the one that its key pair makes of what the vote says.
pub open spec fn is_own_vote(run: Run, vote: PhaseVote, block: CryptoHash, phase: Phase) -> bool {
    &&& vote.chain_id == run.hs.chain_id
    &&& vote.view == run.hs.view_info.view
    &&& vote.block == block
    &&& vote.phase == phase
    &&& vote.signature == run.hs.keypair.signature_of(
        codec::vote_message(vote.chain_id, vote.view, vote.block, vote.phase),
    )
}

/// Whether the participant has not voted yet in the view that it is in, nor in a later one.
pub open spec fn vote_is_unused(run: Run) -> bool {
    run.tree.highest_view_phase_voted is Some ==> (run.tree.highest_view_phase_voted->0).0
        < run.hs.view_info.view.0
}

pub(crate) proof fn lemma_said_concat(first: Seq<Deed>, second: Seq<Deed>)
    ensures
        said(first + second) == said(first) + said(second),
    decreases second.len(),
{
    if second.len() == 0 {
        assert(first + second =~= first);
        assert(said(first) + said(second) =~= said(first));
    } else {
        assert((first + second).drop_last() =~= first + second.drop_last());
        lemma_said_concat(first, second.drop_last());
        assert(said(first + second) =~= said(first) + said(second));
    }
}

pub(crate) proof fn lemma_said_one(deed: Deed)
    ensures
        said(seq![deed]) == (if leaves(deed) {
            seq![deed]
        } else {
            Seq::empty()
        }),
{
    assert(seq![deed].drop_last() =~= Seq::<Deed>::empty());
    assert(said(Seq::<Deed>::empty()) =~= Seq::<Deed>::empty());
    assert(Seq::<Deed>::empty().push(deed) =~= seq![deed]);
}

pub(crate) proof fn lemma_silent(deeds: Seq<Deed>)
    requires
        forall|i: int| 0 <= i < deeds.len() ==> !leaves(#[trigger] deeds[i]),
    ensures
        said(deeds) == Seq::<Deed>::empty(),
    decreases deeds.len(),
{
    if deeds.len() > 0 {
        let fewer = deeds.drop_last();
        assert forall|i: int| 0 <= i < fewer.len() implies !leaves(#[trigger] fewer[i]) by {
            assert(fewer[i] == deeds[i]);
        }
        lemma_silent(fewer);
        assert(!leaves(deeds[deeds.len() - 1]));
    }
}

pub(crate) proof fn lemma_inner_is_silent(deeds: Seq<Deed>)
    requires
        order_laws::all_inner(deeds),
    ensures
        said(deeds) == Seq::<Deed>::empty(),
{
    reveal(order_laws::all_inner);
    assert forall|i: int| 0 <= i < deeds.len() implies !leaves(#[trigger] deeds[i]) by {
        assert(order_laws::is_inner(deeds[i]));
    }
    lemma_silent(deeds);
}

/// Telling observers changes nothing and says nothing.
pub(crate) proof fn lemma_told(run: Run, event: Event)
    ensures
        state::told(run, event).tree == run.tree,
        state::told(run, event).hs == run.hs,
        said(state::told(run, event).done) == said(run.done),
{
    let deed = Deed::Other(Effect::Publish(event));
    tree::lemma_replay_one(run.tree, deed);
    lemma_said_one(deed);
    lemma_said_concat(run.done, seq![deed]);
    assert(said(run.done) + Seq::<Deed>::empty() =~= said(run.done));
}

/// Saying something changes nothing else.
pub(crate) proof fn lemma_spoke(run: Run, deed: Deed)
    requires
        leaves(deed),
    ensures
        state::did(run, seq![deed]).tree == run.tree,
        state::did(run, seq![deed]).hs == run.hs,
        said(state::did(run, seq![deed]).done) == said(run.done).push(deed),
{
    tree::lemma_replay_one(run.tree, deed);
    lemma_said_one(deed);
    lemma_said_concat(run.done, seq![deed]);
    assert(said(run.done) + seq![deed] =~= said(run.done).push(deed));
}

/// Writing a batch says nothing.
pub(crate) proof fn lemma_persisted(run: Run, changes: Seq<Change>)
    ensures
        ({
            let after = state::did(run, seq![Deed::Persist(changes)]);
            &&& after.tree == store::apply_changes(run.tree, changes)
            &&& after.hs == run.hs
            &&& said(after.done) == said(run.done)
            &&& after.done == run.done.push(Deed::Persist(changes))
        }),
{
    let deed = Deed::Persist(changes);
    tree::lemma_replay_one(run.tree, deed);
    lemma_said_one(deed);
    lemma_said_concat(run.done, seq![deed]);
    assert(said(run.done) + Seq::<Deed>::empty() =~= said(run.done));
    assert(run.done + seq![deed] =~= run.done.push(deed));
}

/// Writing one variable changes it alone, and says nothing.
pub(crate) proof fn lemma_wrote(run: Run, op: WriteOp)
    ensures
        ({
            let after = state::did(run, variables::written(op));
            &&& after.tree == store::apply_change(run.tree, Change::Plain(op))
            &&& after.hs == run.hs
            &&& said(after.done) == said(run.done)
        }),
{
    let change = Change::Plain(op);
    let none = Seq::<Change>::empty();
    lemma_persisted(run, seq![change]);
    store::lemma_apply_push(run.tree, none, change);
    assert(none.push(change) =~= seq![change]);
}

/// Making commits known writes how far the application was fed, and says nothing to peers.
pub(crate) proof fn lemma_made_known(run: Run, committed: Seq<CommittedBlock>)
    requires
        tree::initialized(run.tree),
    ensures
        ({
            let after = acting::made_known(run, committed);
            &&& after.hs == run.hs
            &&& said(after.done) == said(run.done)
            &&& run.done.is_prefix_of(after.done)
            &&& tree::initialized(after.tree)
            &&& after.tree.highest_pc == run.tree.highest_pc
            &&& after.tree.locked_pc == run.tree.locked_pc
            &&& after.tree.highest_view_phase_voted == run.tree.highest_view_phase_voted
        }),
{
    let feed = committed_feed::feed_deeds(run.tree);
    let fed = if committed.len() > 0 {
        state::did(run, feed)
    } else {
        run
    };
    assert(said(fed.done) == said(run.done) && run.done.is_prefix_of(fed.done)) by {
        assert forall|i: int| 0 <= i < feed.len() implies !leaves(#[trigger] feed[i]) by {}
        lemma_silent(feed);
        lemma_said_concat(run.done, feed);
        assert(said(run.done) + Seq::<Deed>::empty() =~= said(run.done));
    }
    sparing::lemma_feeding(Kind::Votes, run.tree);
    sparing::lemma_feeding(Kind::Certificates, run.tree);
    sparing::lemma_deeds_spare(Kind::Votes, run.tree, feed);
    sparing::lemma_deeds_spare(Kind::Certificates, run.tree, feed);
    tree::lemma_replay_keeps_initialized(run.tree, feed);
    if let Some(updates) = updates::latest_updates(committed) {
        let deed = Deed::Other(Effect::UpdateValidatorSet(updates));
        tree::lemma_replay_one(fed.tree, deed);
        lemma_said_one(deed);
        lemma_said_concat(fed.done, seq![deed]);
        assert(said(fed.done) + Seq::<Deed>::empty() =~= said(fed.done));
    }
}

/// Acting on a certificate says nothing to peers and uses no vote. It leaves the highest certificate
/// and the lock at least as new as the certificate, but for the lock on a prepare certificate; where
/// it fails, it does nothing.
pub(crate) proof fn lemma_acted<R: Roles>(run: Run, roles: R, justify: PhaseCertificate)
    requires
        tree::initialized(run.tree),
    ensures
        ({
            let (after, error) = acting::acted(run, roles, justify);
            let outcome = updates::update_outcome(run.tree, justify, roles, run.retention);
            &&& after.hs == run.hs
            &&& said(after.done) == said(run.done)
            &&& run.done.is_prefix_of(after.done)
            &&& tree::initialized(after.tree)
            &&& after.tree.highest_view_phase_voted == run.tree.highest_view_phase_voted
            &&& error is None <==> outcome is Ok
            &&& error is Some ==> after.tree == run.tree && after.done == run.done
            &&& error is None ==> ({
                &&& after.tree.highest_pc == (if justify.view.0 > (run.tree.highest_pc->0).view.0 {
                    Some(justify)
                } else {
                    run.tree.highest_pc
                })
                &&& after.tree.locked_pc == (if justify.phase != Phase::Prepare && justify.view.0
                    > (run.tree.locked_pc->0).view.0 {
                    Some(justify)
                } else {
                    run.tree.locked_pc
                })
            })
        }),
{
    let none = Seq::<Change>::empty();
    let (middle, result) = acting::updated(run, roles, none, justify);
    if let Ok((deeds, committed)) = updates::update_outcome(
        run.tree,
        justify,
        roles,
        run.retention,
    ) {
        order_laws::lemma_update_is_inner(run.tree, none, justify, roles, run.retention);
        lemma_inner_is_silent(deeds);
        lemma_said_concat(run.done, deeds);
        assert(said(run.done) + Seq::<Deed>::empty() =~= said(run.done));
        laws::law_update_only_moves_forward(run.tree, justify, roles, run.retention);
        life_laws::lemma_update_spares(Kind::Votes, run.tree, justify, roles, run.retention);
        tree::lemma_replay_keeps_initialized(run.tree, deeds);
        lemma_made_known(middle, committed);
        assert(run.done.is_prefix_of(middle.done));
        let after = acting::made_known(middle, committed);
        assert(run.done =~= after.done.subrange(0, run.done.len() as int)) by {
            assert(middle.done =~= after.done.subrange(0, middle.done.len() as int));
            assert forall|i: int| 0 <= i < run.done.len() implies run.done[i] == after.done[i] by {
                assert(middle.done[i] == run.done[i]);
                assert(after.done.subrange(0, middle.done.len() as int)[i] == after.done[i]);
            }
        }
    }
}

} // verus!

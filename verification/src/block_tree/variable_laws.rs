//! What the single variables of the tree say, and what follows from several of them.

use vstd::prelude::*;

use crate::algorithm;
use crate::block_tree::retention;
use crate::block_tree::retention::MIN_BLOCK_TREE_RETENTION;
use crate::block_tree::store;
use crate::block_tree::store::TreeView;
use crate::block_tree::tree;
use crate::block_tree::tree::GapWatch;
use crate::block_tree::updates;
use crate::block_tree::variables;
use crate::block_tree::write_batch::{Change, WriteOp};
use crate::effects::{Deed, Effect};
use crate::events::Event;
use crate::hotstuff::types::{Phase, PhaseCertificate};
use crate::types::data_types::CryptoHash;

verus! {

/// The view with progress is the highest of the view entered, the view of the highest certificate
/// and that of the highest timeout certificate. A replica starts in the view right after it, or in
/// the first view if there is no progress: never in a view that it entered before.
pub proof fn law_replicas_start_above_all_progress(tree: TreeView)
    ensures
        ({
            let view = variables::view_with_progress(tree);
            let entered = (tree.highest_view_entered->0).0;
            let certified = (tree.highest_pc->0).view.0;
            &&& view >= entered
            &&& view >= certified
            &&& tree.highest_tc matches Some(tc) ==> view >= tc.view.0
            &&& view == entered || view == certified || (tree.highest_tc is Some && view == (
            tree.highest_tc->0).view.0)
            &&& view > 0 ==> algorithm::starting_view(tree) == view + 1
            &&& view == 0 ==> algorithm::starting_view(tree) == 0
        }),
{
}

/// The certificate that a timeout vote reports is the highest one, unless that is the genesis
/// certificate or the replica voted for a block after it.
pub proof fn law_timeout_votes_report_the_highest_certificate(tree: TreeView)
    ensures
        ({
            let highest = tree.highest_pc->0;
            let is_older = tree.local_tip is Some && highest.view.0 < (tree.local_tip->0).view.0;
            &&& variables::timeout_qc(tree) matches Some(pc) ==> pc == highest
            &&& variables::timeout_qc(tree) is Some <==> !highest.is_genesis() && !is_older
        }),
{
}

/// Taking note of a certificate that was seen elsewhere makes it the highest one exactly if it is
/// newer, and then observers are told; a decide certificate decides the change of validators. The
/// lock, the blocks and what is committed are not touched.
pub proof fn law_remote_certificates_are_noted(tree: TreeView, pc: PhaseCertificate)
    requires
        tree::initialized(tree),
    ensures
        ({
            let deeds = variables::remote_pc_deeds(tree, pc);
            let after = tree::replay(tree, deeds);
            let is_newer = pc.view.0 > (tree.highest_pc->0).view.0;
            &&& is_newer ==> after.highest_pc == Some(pc) && deeds.contains(
                Deed::Other(Effect::Publish(Event::UpdateHighestPC { highest_pc: pc })),
            )
            &&& !is_newer ==> after.highest_pc == tree.highest_pc
            &&& pc.phase == Phase::Decide ==> after.update_decided == Some(true)
            &&& pc.phase != Phase::Decide ==> after.update_decided == tree.update_decided
            &&& after == (TreeView {
                highest_pc: after.highest_pc,
                update_decided: after.update_decided,
                ..tree
            })
        }),
{
    let highest = if updates::is_news(tree, pc) {
        seq![Change::Plain(WriteOp::SetHighestPC(pc))]
    } else {
        Seq::empty()
    };
    let changes = highest + updates::decision(pc);
    let events = updates::highest_event(updates::new_highest(tree, pc));
    let deeds = variables::remote_pc_deeds(tree, pc);
    assert(deeds =~= seq![Deed::Persist(changes)] + events);
    tree::lemma_replay_one(tree, Deed::Persist(changes));
    let news = Change::Plain(WriteOp::SetHighestPC(pc));
    let decided = Change::Plain(WriteOp::SetValidatorSetUpdateDecided(true));
    let none = Seq::<Change>::empty();
    store::lemma_apply_push(tree, none, news);
    store::lemma_apply_push(tree, none, decided);
    store::lemma_apply_push(tree, none.push(news), decided);
    assert(changes =~= (if updates::is_news(tree, pc) {
        if pc.phase == Phase::Decide {
            none.push(news).push(decided)
        } else {
            none.push(news)
        }
    } else {
        if pc.phase == Phase::Decide {
            none.push(decided)
        } else {
            none
        }
    }));
    tree::lemma_replay_concat(tree, seq![Deed::Persist(changes)], events);
    let event = Deed::Other(Effect::Publish(Event::UpdateHighestPC { highest_pc: pc }));
    let written = store::apply_changes(tree, changes);
    tree::lemma_replay_one(written, event);
    assert(events =~= seq![event] || events =~= Seq::<Deed>::empty());
    if updates::is_news(tree, pc) {
        assert(deeds[1] == event);
    }
}

/// Put-off commits are counted per block: one more for the block that is watched, up to the largest
/// count, and from one again for another block.
pub proof fn law_put_off_commits_are_counted(watch: GapWatch, block: CryptoHash)
    ensures
        ({
            let after = tree::gap_noted(watch, block);
            &&& after.block == block
            &&& watch.block != block ==> after.count == 1
            &&& watch.block == block && watch.count < u64::MAX ==> after.count == watch.count + 1
            &&& watch.block == block && watch.count == u64::MAX ==> after.count == u64::MAX
        }),
{
}

/// Pruning is off without a request and with a request to keep nothing. Otherwise at least as many
/// blocks are kept as requested, and never fewer than the minimum.
pub proof fn law_enough_is_retained(request: Option<u64>)
    ensures
        ({
            let limit = retention::effective_retention(request);
            &&& limit is None <==> request is None || request == Some(0u64)
            &&& limit matches Some(kept) ==> kept >= request->0 && kept
                >= MIN_BLOCK_TREE_RETENTION && (kept == request->0 || kept
                == MIN_BLOCK_TREE_RETENTION)
        }),
{
}

} // verus!

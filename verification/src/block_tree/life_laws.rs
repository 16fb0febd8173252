//! What becomes of blocks: how the committed frontier moves, how long a speculative commit lasts,
//! what is committed for good, and what becomes of updates to the validator set.

use vstd::prelude::*;

use crate::block_tree::commit;
use crate::block_tree::commit::CommittedBlock;
use crate::block_tree::commit_laws;
use crate::block_tree::invariants;
use crate::block_tree::laws;
use crate::block_tree::pruning;
use crate::block_tree::retention::Retention;
use crate::block_tree::sparing;
use crate::block_tree::sparing::Kind;
use crate::block_tree::speculation;
use crate::block_tree::store;
use crate::block_tree::store::TreeView;
use crate::block_tree::tree;
use crate::block_tree::updates;
use crate::block_tree::write_batch::{Change, WriteOp};
use crate::effects::Deed;
use crate::hotstuff::types::PhaseCertificate;
use crate::roles::Roles;
use crate::types::block::Block;
use crate::types::data_types;
use crate::types::data_types::CryptoHash;
use crate::types::update_sets::AppStateUpdates;
use crate::types::validator_set::{ValidatorSetUpdates, ValidatorSetUpdatesStatus};

verus! {

/// A tree after everything that a certificate brings about was written.
pub open spec fn first_stage(tree: TreeView, justify: PhaseCertificate) -> TreeView {
    store::apply_changes(
        tree,
        updates::lock_changes(tree, justify) + updates::justified_commit(tree, justify).0
            + updates::decision(justify),
    )
}

/// A tree after the leader of a new certificate was credited, too.
pub open spec fn second_stage<R: Roles>(tree: TreeView, justify: PhaseCertificate, roles: R) -> TreeView {
    tree::replay(
        first_stage(tree, justify),
        updates::credit_news(
            first_stage(tree, justify),
            roles,
            updates::is_news(tree, justify),
            justify,
        ),
    )
}

/// A tree after the committed blocks were settled, too.
pub open spec fn third_stage<R: Roles>(tree: TreeView, justify: PhaseCertificate, roles: R) -> TreeView {
    tree::replay(
        second_stage(tree, justify, roles),
        updates::settle_all(
            second_stage(tree, justify, roles),
            roles,
            updates::justified_commit(tree, justify).1->Ok_0,
        ),
    )
}

/// A tree after acting on a certificate.
pub open spec fn updated<R: Roles>(
    tree: TreeView,
    justify: PhaseCertificate,
    roles: R,
    retention: Retention,
) -> TreeView {
    tree::replay(tree, updates::update_outcome(tree, justify, roles, retention)->Ok_0.0)
}

/// Acting on a certificate goes through the stages, and ends with events and pruning.
proof fn lemma_stages<R: Roles>(
    kind: Kind,
    tree: TreeView,
    justify: PhaseCertificate,
    roles: R,
    retention: Retention,
)
    requires
        updates::update_outcome(tree, justify, roles, retention) is Ok,
    ensures
        updates::justified_commit(tree, justify).1 is Ok,
        updates::update_outcome(tree, justify, roles, retention)->Ok_0.1
            == updates::justified_commit(tree, justify).1->Ok_0,
        sparing::spared(
            kind,
            third_stage(tree, justify, roles),
            updated(tree, justify, roles, retention),
        ),
{
    let (commit_changes, result) = updates::justified_commit(tree, justify);
    let committed = result->Ok_0;
    let none = Seq::<Change>::empty();
    let batch = none + updates::lock_changes(tree, justify) + commit_changes
        + updates::decision(justify);
    assert(batch =~= updates::lock_changes(tree, justify) + commit_changes + updates::decision(
        justify,
    ));
    let written = seq![Deed::Persist(batch)];
    tree::lemma_replay_one(tree, Deed::Persist(batch));
    let news = updates::is_news(tree, justify);
    let credited = updates::credit_news(tree::replay(tree, written), roles, news, justify);
    tree::lemma_replay_concat(tree, written, credited);
    let settled = updates::settle_all(tree::replay(tree, written + credited), roles, committed);
    tree::lemma_replay_concat(tree, written + credited, settled);
    assert(tree::replay(tree, written + credited + settled) == third_stage(tree, justify, roles));
    let highest = updates::new_highest(tree, justify);
    let locked = invariants::new_lock(tree, justify);
    let events = updates::update_events(highest, locked, committed);
    tree::lemma_replay_concat(tree, written + credited + settled, events);
    let before_pruning = written + credited + settled + events;
    let pruned = if committed.len() == 0 {
        Seq::empty()
    } else {
        pruning::prune_deeds(tree::replay(tree, before_pruning), retention)
    };
    tree::lemma_replay_concat(tree, before_pruning, pruned);
    sparing::lemma_events(kind, highest, locked, committed);
    sparing::lemma_deeds_spare(kind, third_stage(tree, justify, roles), events);
    sparing::lemma_pruning(kind, tree::replay(tree, before_pruning), retention);
    assert(sparing::deeds_spare(kind, pruned)) by {
        reveal(sparing::deeds_spare);
    }
    sparing::lemma_deeds_spare(kind, tree::replay(tree, before_pruning), pruned);
    sparing::lemma_spared_trans(
        kind,
        third_stage(tree, justify, roles),
        tree::replay(tree, before_pruning),
        updated(tree, justify, roles, retention),
    );
}

/// Crediting the leader of a certificate is to the leader records alone.
proof fn lemma_second_stage<R: Roles>(
    kind: Kind,
    tree: TreeView,
    justify: PhaseCertificate,
    roles: R,
)
    ensures
        sparing::spared(kind, first_stage(tree, justify), second_stage(tree, justify, roles)),
{
    let first = first_stage(tree, justify);
    let credited = updates::credit_news(first, roles, updates::is_news(tree, justify), justify);
    sparing::lemma_credit(kind, first, roles, justify.view);
    assert(sparing::deeds_spare(kind, credited)) by {
        reveal(sparing::deeds_spare);
    }
    sparing::lemma_deeds_spare(kind, first, credited);
}

/// What a certificate writes besides its commit is to none of the kinds.
proof fn lemma_first_stage(kind: Kind, tree: TreeView, justify: PhaseCertificate)
    requires
        !(kind is Certificates),
        !(kind is Validators),
        sparing::spares(kind, updates::justified_commit(tree, justify).0),
    ensures
        sparing::spared(kind, tree, first_stage(tree, justify)),
{
    let locks = updates::lock_changes(tree, justify);
    let committing = updates::justified_commit(tree, justify).0;
    sparing::lemma_locking(kind, tree, justify);
    sparing::lemma_spares_concat(kind, locks, committing);
    sparing::lemma_spares_concat(kind, locks + committing, updates::decision(justify));
    sparing::lemma_spares(kind, tree, locks + committing + updates::decision(justify));
}

/// What a certificate commits stores no block, leaves the speculative commits and records no vote.
proof fn lemma_justified_commit(kind: Kind, tree: TreeView, justify: PhaseCertificate)
    requires
        kind is Speculation || kind is Storing || kind is Votes,
    ensures
        sparing::spares(kind, updates::justified_commit(tree, justify).0),
{
    match invariants::commit_target(tree, justify) {
        Ok(Some(block)) => {
            sparing::lemma_commit(kind, tree, block);
        },
        _ => {
            reveal(sparing::spares);
        },
    }
}

/// Acting on a certificate stores no block and records no vote.
pub(crate) proof fn lemma_update_spares<R: Roles>(
    kind: Kind,
    tree: TreeView,
    justify: PhaseCertificate,
    roles: R,
    retention: Retention,
)
    requires
        kind is Storing || kind is Votes,
        updates::update_outcome(tree, justify, roles, retention) is Ok,
    ensures
        sparing::spared(kind, tree, updated(tree, justify, roles, retention)),
{
    let committed = updates::justified_commit(tree, justify).1->Ok_0;
    lemma_stages(kind, tree, justify, roles, retention);
    lemma_justified_commit(kind, tree, justify);
    lemma_first_stage(kind, tree, justify);
    lemma_second_stage(kind, tree, justify, roles);
    let first = first_stage(tree, justify);
    let second = second_stage(tree, justify, roles);
    let third = third_stage(tree, justify, roles);
    sparing::lemma_settling(kind, second, roles, committed);
    sparing::lemma_deeds_spare(kind, second, updates::settle_all(second, roles, committed));
    sparing::lemma_spared_trans(kind, tree, first, second);
    sparing::lemma_spared_trans(kind, tree, second, third);
    sparing::lemma_spared_trans(kind, tree, third, updated(tree, justify, roles, retention));
}

/// After the first write, acting on a certificate changes neither the validators nor the application
/// state.
pub(crate) proof fn lemma_later_stages<R: Roles>(
    kind: Kind,
    tree: TreeView,
    justify: PhaseCertificate,
    roles: R,
    retention: Retention,
)
    requires
        kind is Validators || kind is AppState,
        updates::update_outcome(tree, justify, roles, retention) is Ok,
    ensures
        updates::justified_commit(tree, justify).1 is Ok,
        updates::update_outcome(tree, justify, roles, retention)->Ok_0.1
            == updates::justified_commit(tree, justify).1->Ok_0,
        sparing::spared(
            kind,
            first_stage(tree, justify),
            updated(tree, justify, roles, retention),
        ),
{
    let committed = updates::justified_commit(tree, justify).1->Ok_0;
    lemma_stages(kind, tree, justify, roles, retention);
    lemma_second_stage(kind, tree, justify, roles);
    let first = first_stage(tree, justify);
    let second = second_stage(tree, justify, roles);
    let third = third_stage(tree, justify, roles);
    sparing::lemma_settling(kind, second, roles, committed);
    sparing::lemma_deeds_spare(kind, second, updates::settle_all(second, roles, committed));
    sparing::lemma_spared_trans(kind, first, second, third);
    sparing::lemma_spared_trans(kind, first, third, updated(tree, justify, roles, retention));
}

/// A change list whose last change sets the frontier sets it.
proof fn lemma_frontier_of_commit(tree: TreeView, base: TreeView, block: CryptoHash)
    requires
        commit::commit_outcome(tree, block).1 is Ok,
        commit::commit_outcome(tree, block).1->Ok_0.len() > 0,
    ensures
        store::apply_changes(
            base,
            commit::commit_outcome(tree, block).0,
        ).highest_committed_block == Some(block),
{
    let chain = commit::uncommitted_chain(tree, block, u64::MAX as nat);
    let order = chain.reverse();
    commit_laws::lemma_chain_above(tree, block, u64::MAX as nat);
    assert(order.last() == chain[0]);
    let before = commit::commit_all(tree, block, order.drop_last()).0;
    let last = commit::commit_one(tree, block, block).0;
    assert(last.last() == Change::Plain(WriteOp::SetHighestCommittedBlock(block)));
    let changes = before + last;
    assert(changes == commit::commit_outcome(tree, block).0);
    assert(changes.last() == last.last());
}

/// A commit that takes in nothing changes nothing.
proof fn lemma_empty_commit(tree: TreeView, block: CryptoHash)
    requires
        commit::commit_outcome(tree, block).1 is Ok,
        commit::commit_outcome(tree, block).1->Ok_0.len() == 0,
    ensures
        commit::commit_outcome(tree, block).0.len() == 0,
{
    let chain = commit::uncommitted_chain(tree, block, u64::MAX as nat);
    if chain.len() > 0 && tree.blocks.contains_key(chain.last()) && commit::chains_to_frontier(
        tree,
        chain.last(),
    ) {
        laws::lemma_commit_all_order(tree, block, chain.reverse());
    }
}

/// The frontier that the first write leaves.
proof fn lemma_first_frontier(tree: TreeView, justify: PhaseCertificate)
    requires
        updates::justified_commit(tree, justify).1 is Ok,
    ensures
        ({
            let committed = updates::justified_commit(tree, justify).1->Ok_0;
            first_stage(tree, justify).highest_committed_block == (if committed.len() == 0 {
                tree.highest_committed_block
            } else {
                Some(committed.last().0)
            })
        }),
{
    let (committing, result) = updates::justified_commit(tree, justify);
    let committed = result->Ok_0;
    let locks = updates::lock_changes(tree, justify);
    let decision = updates::decision(justify);
    sparing::lemma_locking(Kind::Frontier, tree, justify);
    if committed.len() == 0 {
        if let Ok(Some(block)) = invariants::commit_target(tree, justify) {
            lemma_empty_commit(tree, block);
        }
        assert(sparing::spares(Kind::Frontier, committing)) by {
            reveal(sparing::spares);
        }
        lemma_first_stage(Kind::Frontier, tree, justify);
    } else {
        let block = invariants::commit_target(tree, justify)->Ok_0->0;
        laws::law_commits_are_contiguous(tree, block);
        store::lemma_apply_concat(tree, locks, committing);
        store::lemma_apply_concat(tree, locks + committing, decision);
        lemma_frontier_of_commit(tree, store::apply_changes(tree, locks), block);
        sparing::lemma_spares(
            Kind::Frontier,
            store::apply_changes(tree, locks + committing),
            decision,
        );
    }
}

/// Whether every block of a tree is higher than its parent, where the tree holds both.
pub open spec fn heights_rise(tree: TreeView) -> bool {
    forall|block: CryptoHash| #[trigger]
        tree.blocks.contains_key(block) && commit::parent_in(tree, block) is Some
            && tree.blocks.contains_key(commit::parent_in(tree, block)->0) ==> tree.blocks[block].height.0
            > tree.blocks[commit::parent_in(tree, block)->0].height.0
}

/// Acting on a certificate leaves the committed frontier where nothing is committed, and otherwise
/// moves it to the last of the committed blocks. The committed blocks are listed oldest first: each
/// is the parent of the next, and all lie above the frontier as it was. Where heights rise from
/// parent to child they rise along the list.
pub proof fn law_updates_move_the_frontier<R: Roles>(
    tree: TreeView,
    justify: PhaseCertificate,
    roles: R,
    retention: Retention,
)
    requires
        updates::update_outcome(tree, justify, roles, retention) is Ok,
    ensures
        ({
            let committed = updates::update_outcome(tree, justify, roles, retention)->Ok_0.1;
            let after = updated(tree, justify, roles, retention);
            &&& after.highest_committed_block == (if committed.len() == 0 {
                tree.highest_committed_block
            } else {
                Some(committed.last().0)
            })
            &&& forall|i: int|
                0 <= i < committed.len() ==> tree.blocks.contains_key(
                    (#[trigger] committed[i]).0,
                ) && commit::above_frontier(tree, committed[i].0)
            &&& forall|i: int|
                0 < i < committed.len() ==> #[trigger] commit::follows_on(tree, committed, i)
            &&& heights_rise(tree) ==> forall|i: int, j: int|
                0 <= i < j < committed.len() ==> tree.blocks[(
                #[trigger] committed[i]).0].height.0 < tree.blocks[(
                #[trigger] committed[j]).0].height.0
        }),
{
    let committed = updates::justified_commit(tree, justify).1->Ok_0;
    lemma_stages(Kind::Frontier, tree, justify, roles, retention);
    lemma_first_frontier(tree, justify);
    lemma_second_stage(Kind::Frontier, tree, justify, roles);
    let second = second_stage(tree, justify, roles);
    sparing::lemma_settling(Kind::Frontier, second, roles, committed);
    sparing::lemma_deeds_spare(
        Kind::Frontier,
        second,
        updates::settle_all(second, roles, committed),
    );
    if committed.len() > 0 {
        let block = invariants::commit_target(tree, justify)->Ok_0->0;
        laws::law_commits_are_contiguous(tree, block);
        if heights_rise(tree) {
            lemma_commits_rise(tree, block);
        }
    }
}

/// The heights of committed blocks rise where heights rise from parent to child.
proof fn lemma_commits_rise(tree: TreeView, block: CryptoHash)
    requires
        heights_rise(tree),
        commit::commit_outcome(tree, block).1 is Ok,
        commit::commit_outcome(tree, block).1->Ok_0.len() > 0,
    ensures
        ({
            let committed = commit::commit_outcome(tree, block).1->Ok_0;
            forall|i: int, j: int|
                0 <= i < j < committed.len() ==> tree.blocks[(
                #[trigger] committed[i]).0].height.0 < tree.blocks[(
                #[trigger] committed[j]).0].height.0
        }),
{
    let committed = commit::commit_outcome(tree, block).1->Ok_0;
    let chain = commit::uncommitted_chain(tree, block, u64::MAX as nat);
    laws::lemma_chain(tree, block, u64::MAX as nat);
    laws::lemma_commit_all_order(tree, block, chain.reverse());
    assert forall|i: int, j: int| 0 <= i < j < committed.len() implies tree.blocks[(
    #[trigger] committed[i]).0].height.0 < tree.blocks[(#[trigger] committed[j]).0].height.0 by {
        lemma_rise_between(tree, chain, committed, i, j);
    }
}

/// The heights of committed blocks rise from one to any later one.
proof fn lemma_rise_between(
    tree: TreeView,
    chain: Seq<CryptoHash>,
    committed: Seq<CommittedBlock>,
    i: int,
    j: int,
)
    requires
        heights_rise(tree),
        0 <= i < j < committed.len(),
        committed.len() == chain.len(),
        forall|k: int|
            0 <= k < committed.len() ==> (#[trigger] committed[k]).0 == chain.reverse()[k]
                && tree.blocks.contains_key(committed[k].0),
        forall|k: int| 0 <= k < chain.len() - 1 ==> #[trigger] commit::leads_down(tree, chain, k),
    ensures
        tree.blocks[committed[i].0].height.0 < tree.blocks[committed[j].0].height.0,
    decreases j - i,
{
    let n = chain.len() as int;
    assert(committed[j].0 == chain.reverse()[j] && chain.reverse()[j] == chain[n - 1 - j]);
    assert(committed[j - 1].0 == chain.reverse()[j - 1] && chain.reverse()[j - 1] == chain[n - j]);
    assert(commit::leads_down(tree, chain, n - 1 - j));
    assert(tree.blocks.contains_key(committed[j].0));
    assert(tree.blocks.contains_key(committed[j - 1].0));
    if i < j - 1 {
        lemma_rise_between(tree, chain, committed, i, j - 1);
    }
}

/// Pruning never moves the committed frontier.
pub proof fn law_pruning_leaves_the_frontier(tree: TreeView, retention: Retention)
    ensures
        tree::replay(
            tree,
            pruning::prune_deeds(tree, retention),
        ).highest_committed_block == tree.highest_committed_block,
{
    sparing::lemma_pruning(Kind::Frontier, tree, retention);
    sparing::lemma_deeds_spare(Kind::Frontier, tree, pruning::prune_deeds(tree, retention));
}

/// What writing a list of speculative commits leaves of it.
proof fn lemma_listed(tree: TreeView, commits: Seq<CryptoHash>)
    ensures
        tree::replay(tree, speculation::list_speculative(commits)).speculative_commits == commits,
{
    let change = Change::SpeculativeCommits(commits);
    tree::lemma_replay_one(tree, Deed::Persist(seq![change]));
    assert(seq![change].drop_last() =~= Seq::<Change>::empty());
    reveal_with_fuel(crate::block_tree::store::apply_changes, 2);
}

/// What is left of a list without a hash.
proof fn lemma_without(hashes: Seq<CryptoHash>, gone: CryptoHash, other: CryptoHash)
    ensures
        data_types::without(hashes, gone).contains(other) == (hashes.contains(other) && other
            != gone),
{
    broadcast use vstd::seq_lib::group_filter_ensures;

    let keep = data_types::differs_from(gone);
    if hashes.filter(keep).contains(other) {
        hashes.lemma_filter_contains_rev(keep, other);
        let i = choose|i: int| 0 <= i < hashes.filter(keep).len() && hashes.filter(keep)[i] == other;
        assert(keep(hashes.filter(keep)[i]));
    }
    if hashes.contains(other) && other != gone {
        let i = choose|i: int| 0 <= i < hashes.len() && hashes[i] == other;
        assert(keep(hashes[i]));
        assert(hashes.filter(keep).contains(hashes[i]));
    }
}

/// Whether a block is committed speculatively after a block was taken off the list.
proof fn lemma_unlisted(tree: TreeView, gone: CryptoHash, block: CryptoHash)
    ensures
        tree::replay(
            tree,
            speculation::unspeculate(tree, gone),
        ).speculative_commits.contains(block) == (tree.speculative_commits.contains(block) && block
            != gone),
{
    if tree.speculative_commits.contains(gone) {
        lemma_listed(tree, data_types::without(tree.speculative_commits, gone));
        lemma_without(tree.speculative_commits, gone, block);
    }
}

/// Adding a block to the speculative commits makes that block one of them, and taking a block off
/// them, whether it is rolled back or committed for good, makes it none. Neither matters to other
/// blocks.
pub proof fn law_speculation_concerns_one_block(
    tree: TreeView,
    changed: CryptoHash,
    block: CryptoHash,
)
    ensures
        tree::replay(
            tree,
            speculation::speculate(tree, changed),
        ).speculative_commits.contains(block) == (tree.speculative_commits.contains(block) || block
            == changed),
        tree::replay(
            tree,
            speculation::unspeculate(tree, changed),
        ).speculative_commits.contains(block) == (tree.speculative_commits.contains(block) && block
            != changed),
{
    lemma_unlisted(tree, changed, block);
    if !tree.speculative_commits.contains(changed) {
        let longer = tree.speculative_commits.push(changed);
        lemma_listed(tree, longer);
        assert(longer[longer.len() - 1] == changed);
        if tree.speculative_commits.contains(block) {
            let i = choose|i: int|
                0 <= i < tree.speculative_commits.len() && tree.speculative_commits[i] == block;
            assert(longer[i] == block);
        }
        if longer.contains(block) && block != changed {
            let i = choose|i: int| 0 <= i < longer.len() && longer[i] == block;
            assert(tree.speculative_commits[i] == block);
        }
    }
}

/// Settling committed blocks takes them off the speculative commits, and no others.
proof fn lemma_settled_list<R: Roles>(
    tree: TreeView,
    roles: R,
    committed: Seq<CommittedBlock>,
    block: CryptoHash,
)
    ensures
        tree::replay(
            tree,
            updates::settle_all(tree, roles, committed),
        ).speculative_commits.contains(block) == (tree.speculative_commits.contains(block)
            && !updates::hashes_of(committed).contains(block)),
    decreases committed.len(),
{
    if committed.len() > 0 {
        let fewer = committed.drop_last();
        let gone = committed.last().0;
        lemma_settled_list(tree, roles, fewer, block);
        let before = updates::settle_all(tree, roles, fewer);
        let middle = tree::replay(tree, before);
        let settled = updates::settle_one(middle, roles, gone);
        tree::lemma_replay_concat(tree, before, settled);
        let promoted = speculation::unspeculate(middle, gone);
        let next = tree::replay(middle, promoted);
        lemma_unlisted(middle, gone, block);
        if next.blocks.contains_key(gone) && !next.blocks[gone].justify.is_genesis()
            && next.blocks[gone].justify.view.0 < u64::MAX {
            let view = data_types::ViewNumber((next.blocks[gone].justify.view.0 + 1) as u64);
            let credited = speculation::credit_view(next, roles, view);
            sparing::lemma_credit(Kind::Speculation, next, roles, view);
            sparing::lemma_deeds_spare(Kind::Speculation, next, credited);
            tree::lemma_replay_concat(middle, promoted, credited);
        }
        let all = updates::hashes_of(committed);
        let some = updates::hashes_of(fewer);
        assert(all.contains(block) == (some.contains(block) || block == gone)) by {
            assert(all =~= some.push(gone));
            assert(all[all.len() - 1] == gone);
            if some.contains(block) {
                let i = choose|i: int| 0 <= i < some.len() && some[i] == block;
                assert(all[i] == block);
            }
            if all.contains(block) && block != gone {
                let i = choose|i: int| 0 <= i < all.len() && all[i] == block;
                assert(some[i] == block);
            }
        }
    } else {
        assert(updates::hashes_of(committed).len() == 0);
    }
}

/// A speculative commit lasts: after acting on a certificate a block is committed speculatively
/// exactly if it was before, and was not among the blocks that were committed.
pub proof fn law_speculation_lasts_until_the_commit<R: Roles>(
    tree: TreeView,
    justify: PhaseCertificate,
    roles: R,
    retention: Retention,
    block: CryptoHash,
)
    requires
        updates::update_outcome(tree, justify, roles, retention) is Ok,
    ensures
        updated(tree, justify, roles, retention).speculative_commits.contains(block) == (
        tree.speculative_commits.contains(block) && !updates::hashes_of(
            updates::update_outcome(tree, justify, roles, retention)->Ok_0.1,
        ).contains(block)),
{
    let kind = Kind::Speculation;
    let committed = updates::justified_commit(tree, justify).1->Ok_0;
    lemma_stages(kind, tree, justify, roles, retention);
    lemma_justified_commit(kind, tree, justify);
    lemma_first_stage(kind, tree, justify);
    lemma_second_stage(kind, tree, justify, roles);
    lemma_settled_list(second_stage(tree, justify, roles), roles, committed, block);
}

/// Inserting a block, moving the lock on ahead of a body, and pruning leave the speculative commits.
pub proof fn law_other_steps_leave_speculation<R: Roles>(
    tree: TreeView,
    block: Block,
    app_state_updates: Option<AppStateUpdates>,
    validator_set_updates: Option<ValidatorSetUpdates>,
    justify: PhaseCertificate,
    roles: R,
    retention: Retention,
)
    ensures
        store::apply_changes(
            tree,
            updates::insertion(tree, block, app_state_updates, validator_set_updates),
        ).speculative_commits == tree.speculative_commits,
        tree::replay(
            tree,
            updates::locks_only_deeds(tree, justify, roles),
        ).speculative_commits == tree.speculative_commits,
        tree::replay(
            tree,
            pruning::prune_deeds(tree, retention),
        ).speculative_commits == tree.speculative_commits,
{
    let kind = Kind::Speculation;
    let inserted = updates::insertion(tree, block, app_state_updates, validator_set_updates);
    assert(sparing::spares(kind, inserted)) by {
        reveal(sparing::spares);
    }
    sparing::lemma_spares(kind, tree, inserted);
    sparing::lemma_pruning(kind, tree, retention);
    sparing::lemma_deeds_spare(kind, tree, pruning::prune_deeds(tree, retention));
    sparing::lemma_locking(kind, tree, justify);
    let batch = updates::lock_changes(tree, justify) + updates::decision(justify);
    sparing::lemma_spares_concat(
        kind,
        updates::lock_changes(tree, justify),
        updates::decision(justify),
    );
    let written = seq![Deed::Persist(batch)];
    assert(sparing::deeds_spare(kind, written)) by {
        reveal(sparing::deeds_spare);
    }
    let credited = updates::credit_news(
        tree::replay(tree, written),
        roles,
        updates::is_news(tree, justify),
        justify,
    );
    sparing::lemma_credit(kind, tree::replay(tree, written), roles, justify.view);
    assert(sparing::deeds_spare(kind, credited)) by {
        reveal(sparing::deeds_spare);
    }
    let highest = updates::new_highest(tree, justify);
    let locked = invariants::new_lock(tree, justify);
    let events = updates::update_events(highest, locked, Seq::empty());
    sparing::lemma_events(kind, highest, locked, Seq::empty());
    sparing::lemma_deeds_concat(kind, written, credited);
    sparing::lemma_deeds_concat(kind, written + credited, events);
    sparing::lemma_deeds_spare(kind, tree, updates::locks_only_deeds(tree, justify, roles));
}

/// Whether `ancestor` is reached from `block` by going `steps` times from a block to its parent,
/// over blocks that the tree holds.
pub open spec fn is_ancestor(
    tree: TreeView,
    ancestor: CryptoHash,
    block: CryptoHash,
    steps: nat,
) -> bool
    decreases steps,
{
    &&& tree.blocks.contains_key(block)
    &&& if steps == 0 {
        ancestor == block
    } else {
        &&& commit::parent_in(tree, block) is Some
        &&& is_ancestor(tree, ancestor, commit::parent_in(tree, block)->0, (steps - 1) as nat)
    }
}

/// Where heights rise from parent to child, an ancestor is lower.
proof fn lemma_ancestors_are_lower(
    tree: TreeView,
    ancestor: CryptoHash,
    block: CryptoHash,
    steps: nat,
)
    requires
        heights_rise(tree),
        is_ancestor(tree, ancestor, block, steps),
    ensures
        tree.blocks.contains_key(ancestor),
        tree.blocks.contains_key(block),
        tree.blocks[ancestor].height.0 + steps <= tree.blocks[block].height.0,
    decreases steps,
{
    if steps > 0 {
        let parent = commit::parent_in(tree, block)->0;
        lemma_ancestors_are_lower(tree, ancestor, parent, (steps - 1) as nat);
        assert(tree.blocks.contains_key(parent));
    }
}

/// Without a committed frontier nothing is committed for good, and a block that the tree does not
/// hold never is. Where heights rise from parent to child, the frontier and its ancestors are
/// committed for good, and its descendants are not.
pub proof fn law_what_is_committed_for_good(
    tree: TreeView,
    ancestor: CryptoHash,
    descendant: CryptoHash,
    down: nat,
    up: nat,
)
    ensures
        tree.highest_committed_block is None ==> !speculation::irrevocable(tree, ancestor),
        !tree.blocks.contains_key(ancestor) ==> !speculation::irrevocable(tree, ancestor),
        tree.highest_committed_block is Some && heights_rise(tree) && is_ancestor(
            tree,
            ancestor,
            tree.highest_committed_block->0,
            down,
        ) ==> speculation::irrevocable(tree, ancestor),
        tree.highest_committed_block is Some && heights_rise(tree) && up > 0 && is_ancestor(
            tree,
            tree.highest_committed_block->0,
            descendant,
            up,
        ) ==> !speculation::irrevocable(tree, descendant),
{
    if tree.highest_committed_block is Some && heights_rise(tree) {
        let frontier = tree.highest_committed_block->0;
        if is_ancestor(tree, ancestor, frontier, down) {
            lemma_ancestors_are_lower(tree, ancestor, frontier, down);
        }
        if is_ancestor(tree, frontier, descendant, up) {
            lemma_ancestors_are_lower(tree, frontier, descendant, up);
        }
    }
}

/// What is committed for good stays so: acting on a certificate never changes that of a block while
/// the tree holds the block and the committed frontier.
pub proof fn law_committed_for_good_stays<R: Roles>(
    tree: TreeView,
    justify: PhaseCertificate,
    roles: R,
    retention: Retention,
    block: CryptoHash,
)
    requires
        updates::update_outcome(tree, justify, roles, retention) is Ok,
        speculation::irrevocable(tree, block),
        updated(tree, justify, roles, retention).blocks.contains_key(block),
        updated(tree, justify, roles, retention).blocks.contains_key(
            updated(tree, justify, roles, retention).highest_committed_block->0,
        ),
    ensures
        speculation::irrevocable(updated(tree, justify, roles, retention), block),
{
    let committed = updates::justified_commit(tree, justify).1->Ok_0;
    lemma_update_spares(Kind::Storing, tree, justify, roles, retention);
    law_updates_move_the_frontier(tree, justify, roles, retention);
    if committed.len() > 0 {
        assert(committed.last() == committed[committed.len() - 1]);
        assert(commit::above_frontier(tree, committed[committed.len() - 1].0));
    }
}

/// A block that is inserted has the status of the updates to the validator set that come with it:
/// they are pending. A block that comes with none, and had no status, has none.
pub proof fn law_inserted_updates_are_pending(
    tree: TreeView,
    block: Block,
    app_state_updates: Option<AppStateUpdates>,
    validator_set_updates: Option<ValidatorSetUpdates>,
)
    requires
        !tree.validator_set_updates.contains_key(block.hash),
    ensures
        tree::updates_status(
            store::apply_changes(
                tree,
                updates::insertion(tree, block, app_state_updates, validator_set_updates),
            ),
            block.hash,
        ) == (match validator_set_updates {
            Some(updates) => ValidatorSetUpdatesStatus::Pending(updates),
            None => ValidatorSetUpdatesStatus::NoUpdates,
        }),
{
    let changes = updates::insertion(tree, block, app_state_updates, validator_set_updates);
    let kind = Kind::Status(block.hash);
    match validator_set_updates {
        Some(updates) => {
            let n = changes.len() as int;
            let last = changes.last();
            let before = changes.drop_last();
            assert(before.last() == Change::Plain(
                WriteOp::SetValidatorSetUpdates(
                    block.hash,
                    ValidatorSetUpdatesStatus::Pending(updates),
                ),
            ));
            assert(last is Children);
            assert(store::apply_changes(tree, changes) == store::apply_change(
                store::apply_changes(tree, before),
                last,
            ));
            assert(store::apply_changes(tree, before) == store::apply_change(
                store::apply_changes(tree, before.drop_last()),
                before.last(),
            ));
        },
        None => {
            assert(sparing::spares(kind, changes)) by {
                reveal(sparing::spares);
            }
            sparing::lemma_spares(kind, tree, changes);
        },
    }
}

/// Committing a block whose updates to the validator set are pending makes them committed.
pub proof fn law_committed_updates_are_committed(tree: TreeView, block: CryptoHash)
    requires
        commit::commit_outcome(tree, block).1 is Ok,
        commit::commit_outcome(tree, block).1->Ok_0.len() > 0,
        tree::updates_status(tree, block) is Pending,
    ensures
        tree::updates_status(
            store::apply_changes(tree, commit::commit_outcome(tree, block).0),
            block,
        ) is Committed,
{
    let chain = commit::uncommitted_chain(tree, block, u64::MAX as nat);
    let order = chain.reverse();
    commit_laws::lemma_chain_above(tree, block, u64::MAX as nat);
    assert(order.last() == chain[0]);
    let before = commit::commit_all(tree, block, order.drop_last()).0;
    let last = commit::commit_one(tree, block, block).0;
    let changes = before + last;
    assert(changes == commit::commit_outcome(tree, block).0);
    let n = last.len() as int;
    assert(last.last() == Change::Plain(WriteOp::SetHighestCommittedBlock(block)));
    assert(last[n - 2] == Change::Plain(
        WriteOp::SetValidatorSetUpdates(block, ValidatorSetUpdatesStatus::Committed),
    ));
    let fewer = changes.drop_last();
    assert(changes.last() == last.last());
    assert(fewer.last() == last[n - 2]);
    assert(store::apply_changes(tree, changes) == store::apply_change(
        store::apply_changes(tree, fewer),
        changes.last(),
    ));
    assert(store::apply_changes(tree, fewer) == store::apply_change(
        store::apply_changes(tree, fewer.drop_last()),
        fewer.last(),
    ));
}

/// A block without updates to the validator set has none after a commit that takes in no block with
/// any.
pub proof fn law_blocks_without_updates_stay_so(
    tree: TreeView,
    target: CryptoHash,
    block: CryptoHash,
)
    requires
        commit::commit_outcome(tree, target).1 is Ok,
        forall|i: int|
            0 <= i < commit::commit_outcome(tree, target).1->Ok_0.len() ==> (
            #[trigger] commit::commit_outcome(tree, target).1->Ok_0[i]).1 is None,
        tree::updates_status(tree, block) is NoUpdates,
    ensures
        tree::updates_status(
            store::apply_changes(tree, commit::commit_outcome(tree, target).0),
            block,
        ) is NoUpdates,
{
    let kind = Kind::Status(block);
    let chain = commit::uncommitted_chain(tree, target, u64::MAX as nat);
    let order = chain.reverse();
    let committed = commit::commit_outcome(tree, target).1->Ok_0;
    let changes = commit::commit_outcome(tree, target).0;
    assert(sparing::spares(kind, changes)) by {
        if committed.len() == 0 {
            lemma_empty_commit(tree, target);
            reveal(sparing::spares);
        } else {
            laws::lemma_commit_all_order(tree, target, order);
            lemma_brought(tree, target, order);
            assert forall|i: int| 0 <= i < order.len() implies !(tree::updates_status(
                tree,
                #[trigger] order[i],
            ) is Pending) by {
                assert(committed[i].1 is None);
            }
            sparing::lemma_commit(kind, tree, target);
        }
    }
    sparing::lemma_spares(kind, tree, changes);
}

/// A commit tells of the updates that its blocks bring.
proof fn lemma_brought(tree: TreeView, target: CryptoHash, order: Seq<CryptoHash>)
    requires
        commit::commit_all(tree, target, order).1 is Ok,
    ensures
        commit::commit_all(tree, target, order).1->Ok_0.len() == order.len(),
        forall|i: int|
            0 <= i < order.len() ==> (#[trigger] commit::commit_all(
                tree,
                target,
                order,
            ).1->Ok_0[i]).1 is Some == (tree::updates_status(tree, order[i]) is Pending),
    decreases order.len(),
{
    if order.len() > 0 {
        lemma_brought(tree, target, order.drop_last());
        let fewer = commit::commit_all(tree, target, order.drop_last()).1->Ok_0;
        let all = commit::commit_all(tree, target, order).1->Ok_0;
        assert forall|i: int| 0 <= i < order.len() implies (#[trigger] all[i]).1 is Some == (
        tree::updates_status(tree, order[i]) is Pending) by {
            if i < fewer.len() {
                assert(all[i] == fewer[i]);
                assert(order.drop_last()[i] == order[i]);
            }
        }
    }
}

/// A block that is deleted has no updates to the validator set any more.
pub proof fn law_deleted_blocks_have_no_updates(
    known: TreeView,
    tree: TreeView,
    blocks: Seq<CryptoHash>,
    block: CryptoHash,
)
    requires
        blocks.contains(block),
    ensures
        tree::updates_status(
            store::apply_changes(tree, commit::deletions(known, blocks)),
            block,
        ) is NoUpdates,
    decreases blocks.len(),
{
    let fewer = blocks.drop_last();
    let before = commit::deletions(known, fewer);
    let last = commit::deletion(known, blocks.last());
    store::lemma_apply_concat(tree, before, last);
    let middle = store::apply_changes(tree, before);
    if block == blocks.last() {
        let c1 = Seq::<Change>::empty().push(last[0]);
        let c2 = c1.push(last[1]);
        let c3 = c2.push(last[2]);
        store::lemma_apply_push(middle, Seq::empty(), last[0]);
        store::lemma_apply_push(middle, c1, last[1]);
        store::lemma_apply_push(middle, c2, last[2]);
        if known.blocks.contains_key(block) {
            store::lemma_apply_push(middle, c3, last[3]);
            assert(c3.push(last[3]) =~= last);
        } else {
            assert(c3 =~= last);
        }
    } else {
        let i = choose|i: int| 0 <= i < blocks.len() && blocks[i] == block;
        assert(fewer[i] == block);
        law_deleted_blocks_have_no_updates(known, tree, fewer, block);
        assert(sparing::spares(Kind::Status(block), last)) by {
            reveal(sparing::spares);
        }
        sparing::lemma_spares(Kind::Status(block), middle, last);
        if middle.validator_set_updates.contains_key(block) {
            let after = store::apply_changes(middle, last);
            assert(after.validator_set_updates.contains_key(block)
                ==> after.validator_set_updates[block] == middle.validator_set_updates[block]);
        }
    }
}

} // verus!

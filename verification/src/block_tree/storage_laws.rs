//! What is written to a key-value store is read back.

use vstd::prelude::*;

use crate::block_tree::cells;
use crate::block_tree::cells::{Cell, KeyValues};
use crate::block_tree::store;
use crate::block_tree::store::TreeView;
use crate::block_tree::write_batch::Change;
use crate::hotstuff::reputation::LeaderReputationEntry;
use crate::types::data_types::{BlockHeight, CryptoHash};
use crate::wire;
use crate::wire::Wire;

verus! {

/// Whether two tables have the same keys, and values that say the same.
pub open spec fn same_table<K, V: Wire>(a: Map<K, V>, b: Map<K, V>) -> bool {
    &&& a.dom() == b.dom()
    &&& forall|key: K| #[trigger] a.contains_key(key) ==> a[key].says_same(&b[key])
}

/// Whether two trees say the same.
pub open spec fn same_tree(a: TreeView, b: TreeView) -> bool {
    &&& same_table(a.blocks, b.blocks)
    &&& a.block_at_height == b.block_at_height
    &&& a.children == b.children
    &&& a.app_state == b.app_state
    &&& same_table(a.pending_app_state, b.pending_app_state)
    &&& same_table(a.validator_set_updates, b.validator_set_updates)
    &&& same_variables(a, b)
}

/// Whether the variables that there is one of say the same in two trees.
pub open spec fn same_variables(a: TreeView, b: TreeView) -> bool {
    &&& a.committed_validators == b.committed_validators
    &&& a.previous_validators == b.previous_validators
    &&& a.update_height == b.update_height
    &&& a.update_decided == b.update_decided
    &&& a.locked_pc.says_same(&b.locked_pc)
    &&& a.highest_pc.says_same(&b.highest_pc)
    &&& a.highest_view_entered == b.highest_view_entered
    &&& a.highest_view_phase_voted == b.highest_view_phase_voted
    &&& a.highest_committed_block == b.highest_committed_block
    &&& a.newest_block == b.newest_block
    &&& a.highest_tc.says_same(&b.highest_tc)
    &&& a.local_tip.says_same(&b.local_tip)
    &&& a.last_voted_proposal == b.last_voted_proposal
    &&& a.speculative_commits == b.speculative_commits
    &&& a.evidence == b.evidence
    &&& a.reputation == b.reputation
    &&& a.pruned_height == b.pruned_height
    &&& a.app_fed_height == b.app_fed_height
}

/// Values that one cell holds say the same.
proof fn lemma_held<T: Wire>(content: Option<Seq<u8>>, a: T, b: T)
    requires
        cells::holds(content, a),
        cells::holds(content, b),
    ensures
        a.says_same(&b),
{
    let bytes = content->0;
    wire::lemma_prefix(a.encoding(), bytes);
    wire::lemma_prefix(b.encoding(), bytes);
    let ra = bytes.skip(a.encoding().len() as int);
    let rb = bytes.skip(b.encoding().len() as int);
    assert(a.encoding() + ra == b.encoding() + rb);
    T::lemma_unique(a, ra, b, rb);
}

/// Values that one cell holds, where there are any, say the same.
proof fn lemma_held_option<T: Wire>(content: Option<Seq<u8>>, a: Option<T>, b: Option<T>)
    requires
        cells::holds_option(content, a),
        cells::holds_option(content, b),
    ensures
        a.says_same(&b),
{
    if a is Some {
        lemma_held(content, a->0, b->0);
    }
}

/// Lists of values that are what they say, which one cell holds, are the same.
proof fn lemma_held_list<T: Wire>(content: Option<Seq<u8>>, a: Seq<T>, b: Seq<T>)
    requires
        cells::holds_list(content, a),
        cells::holds_list(content, b),
        forall|x: T, y: T| #[trigger] x.says_same(&y) ==> x == y,
    ensures
        a == b,
{
    let bytes = content->0;
    let ea = wire::vector_bytes(a);
    let eb = wire::vector_bytes(b);
    wire::lemma_prefix(ea, bytes);
    wire::lemma_prefix(eb, bytes);
    assert(ea + bytes.skip(ea.len() as int) == eb + bytes.skip(eb.len() as int));
    wire::lemma_vector(a, bytes.skip(ea.len() as int), b, bytes.skip(eb.len() as int));
    assert forall|i: int| 0 <= i < a.len() implies a[i] == b[i] by {
        assert(a[i].says_same(&b[i]));
    }
    assert(a =~= b);
}

/// Records that one cell holds are the same.
proof fn lemma_records(
    bytes: Seq<u8>,
    a: Seq<([u8; 32], LeaderReputationEntry)>,
    wa: u32,
    b: Seq<([u8; 32], LeaderReputationEntry)>,
    wb: u32,
)
    requires
        cells::begins_with_records(bytes, a, wa),
        cells::begins_with_records(bytes, b, wb),
    ensures
        a == b,
        wa == wb,
{
    let ea = cells::reputation_bytes(a, wa);
    let eb = cells::reputation_bytes(b, wb);
    wire::lemma_prefix(ea, bytes);
    wire::lemma_prefix(eb, bytes);
    let ra = bytes.skip(ea.len() as int);
    let rb = bytes.skip(eb.len() as int);
    assert(ea + ra =~= wire::vector_bytes(a) + (wa.encoding() + ra));
    assert(eb + rb =~= wire::vector_bytes(b) + (wb.encoding() + rb));
    wire::lemma_vector(a, wa.encoding() + ra, b, wb.encoding() + rb);
    u32::lemma_unique(wa, ra, wb, rb);
    assert forall|i: int| 0 <= i < a.len() implies a[i] == b[i] by {
        assert(a[i].says_same(&b[i]));
        assert(a[i].0 =~= b[i].0);
    }
    assert(a =~= b);
}

/// What both trees say of a cell.
proof fn lemma_cell(kv: KeyValues, a: TreeView, b: TreeView, cell: Cell)
    requires
        cells::keeps(kv, a),
        cells::keeps(kv, b),
    ensures
        cells::cell_keeps(a, cell, cells::content(kv, cell)),
        cells::cell_keeps(b, cell, cells::content(kv, cell)),
{
}

/// A store keeps one block by a hash.
proof fn lemma_one_block(kv: KeyValues, a: TreeView, b: TreeView, hash: CryptoHash)
    requires
        cells::keeps(kv, a),
        cells::keeps(kv, b),
    ensures
        a.blocks.contains_key(hash) == b.blocks.contains_key(hash),
        a.blocks.contains_key(hash) ==> a.blocks[hash].says_same(&b.blocks[hash]),
{
    lemma_cell(kv, a, b, Cell::BlockHeight(hash));
    if a.blocks.contains_key(hash) {
        let x = a.blocks[hash];
        let y = b.blocks[hash];
        lemma_cell(kv, a, b, Cell::BlockJustify(hash));
        lemma_cell(kv, a, b, Cell::BlockDataHash(hash));
        lemma_cell(kv, a, b, Cell::BlockDataLen(hash));
        lemma_held(cells::content(kv, Cell::BlockHeight(hash)), x.height.0, y.height.0);
        lemma_held(cells::content(kv, Cell::BlockJustify(hash)), x.justify, y.justify);
        lemma_held(cells::content(kv, Cell::BlockDataHash(hash)), x.data_hash, y.data_hash);
        lemma_held(
            cells::content(kv, Cell::BlockDataLen(hash)),
            x.data@.len() as u32,
            y.data@.len() as u32,
        );
        assert forall|i: int| 0 <= i < x.data@.len() implies (#[trigger] x.data@[i]).says_same(
            &y.data@[i],
        ) by {
            lemma_cell(kv, a, b, Cell::BlockDatum(hash, i as u32));
        }
    }
}

/// A store keeps one value of each table entry.
proof fn lemma_one_entry(kv: KeyValues, a: TreeView, b: TreeView, block: CryptoHash)
    requires
        cells::keeps(kv, a),
        cells::keeps(kv, b),
    ensures
        a.children.contains_key(block) == b.children.contains_key(block),
        a.children.contains_key(block) ==> a.children[block] == b.children[block],
        a.pending_app_state.contains_key(block) == b.pending_app_state.contains_key(block),
        a.pending_app_state.contains_key(block) ==> a.pending_app_state[block].says_same(
            &b.pending_app_state[block],
        ),
        a.validator_set_updates.contains_key(block) == b.validator_set_updates.contains_key(block),
        a.validator_set_updates.contains_key(block) ==> a.validator_set_updates[block].says_same(
            &b.validator_set_updates[block],
        ),
{
    lemma_cell(kv, a, b, Cell::Children(block));
    lemma_cell(kv, a, b, Cell::PendingAppStateUpdates(block));
    lemma_cell(kv, a, b, Cell::ValidatorSetUpdatesStatus(block));
    if a.children.contains_key(block) {
        lemma_held_list(
            cells::content(kv, Cell::Children(block)),
            a.children[block],
            b.children[block],
        );
    }
    if a.pending_app_state.contains_key(block) {
        lemma_held(
            cells::content(kv, Cell::PendingAppStateUpdates(block)),
            a.pending_app_state[block],
            b.pending_app_state[block],
        );
    }
    if a.validator_set_updates.contains_key(block) {
        lemma_held(
            cells::content(kv, Cell::ValidatorSetUpdatesStatus(block)),
            a.validator_set_updates[block],
            b.validator_set_updates[block],
        );
    }
}

/// A store keeps one set of certificates.
proof fn lemma_one_of_each_certificate(kv: KeyValues, a: TreeView, b: TreeView)
    requires
        cells::keeps(kv, a),
        cells::keeps(kv, b),
    ensures
        a.locked_pc.says_same(&b.locked_pc),
        a.highest_pc.says_same(&b.highest_pc),
        a.highest_tc.says_same(&b.highest_tc),
        a.local_tip.says_same(&b.local_tip),
{
    lemma_cell(kv, a, b, Cell::LockedPC);
    lemma_cell(kv, a, b, Cell::HighestPC);
    lemma_cell(kv, a, b, Cell::HighestTC);
    lemma_cell(kv, a, b, Cell::LocalTip);
    lemma_held_option(cells::content(kv, Cell::LockedPC), a.locked_pc, b.locked_pc);
    lemma_held_option(cells::content(kv, Cell::HighestPC), a.highest_pc, b.highest_pc);
    lemma_held_option(cells::content(kv, Cell::HighestTC), a.highest_tc, b.highest_tc);
    lemma_held_option(cells::content(kv, Cell::LocalTip), a.local_tip, b.local_tip);
}

/// A store keeps one of each number.
proof fn lemma_one_of_each_number(kv: KeyValues, a: TreeView, b: TreeView)
    requires
        cells::keeps(kv, a),
        cells::keeps(kv, b),
    ensures
        a.update_height == b.update_height,
        a.update_decided == b.update_decided,
        a.highest_view_entered == b.highest_view_entered,
        a.highest_view_phase_voted == b.highest_view_phase_voted,
        a.pruned_height == b.pruned_height,
        a.app_fed_height == b.app_fed_height,
{
    lemma_cell(kv, a, b, Cell::ValidatorSetUpdateHeight);
    lemma_cell(kv, a, b, Cell::ValidatorSetUpdateDecided);
    lemma_cell(kv, a, b, Cell::HighestViewEntered);
    lemma_cell(kv, a, b, Cell::HighestViewPhaseVoted);
    lemma_cell(kv, a, b, Cell::PrunedHeight);
    lemma_cell(kv, a, b, Cell::AppFedHeight);
    lemma_held_option(cells::content(kv, Cell::ValidatorSetUpdateDecided), a.update_decided, b.update_decided);
    if a.update_height is Some {
        lemma_held(
            cells::content(kv, Cell::ValidatorSetUpdateHeight),
            (a.update_height->0).0,
            (b.update_height->0).0,
        );
    }
    if a.highest_view_entered is Some {
        lemma_held(
            cells::content(kv, Cell::HighestViewEntered),
            (a.highest_view_entered->0).0,
            (b.highest_view_entered->0).0,
        );
    }
    if a.highest_view_phase_voted is Some {
        lemma_held(
            cells::content(kv, Cell::HighestViewPhaseVoted),
            (a.highest_view_phase_voted->0).0,
            (b.highest_view_phase_voted->0).0,
        );
    }
    if a.pruned_height is Some {
        lemma_held(
            cells::content(kv, Cell::PrunedHeight),
            (a.pruned_height->0).0,
            (b.pruned_height->0).0,
        );
    }
    if a.app_fed_height is Some {
        lemma_held(
            cells::content(kv, Cell::AppFedHeight),
            (a.app_fed_height->0).0,
            (b.app_fed_height->0).0,
        );
    }
}

/// A store keeps one of each hash.
proof fn lemma_one_of_each_hash(kv: KeyValues, a: TreeView, b: TreeView)
    requires
        cells::keeps(kv, a),
        cells::keeps(kv, b),
    ensures
        a.highest_committed_block == b.highest_committed_block,
        a.newest_block == b.newest_block,
        a.last_voted_proposal == b.last_voted_proposal,
{
    lemma_cell(kv, a, b, Cell::HighestCommittedBlock);
    lemma_cell(kv, a, b, Cell::NewestBlock);
    lemma_cell(kv, a, b, Cell::LastVotedProposal);
    lemma_held_option(cells::content(kv, Cell::HighestCommittedBlock), a.highest_committed_block, b.highest_committed_block);
    lemma_held_option(cells::content(kv, Cell::NewestBlock), a.newest_block, b.newest_block);
    if a.last_voted_proposal is Some {
        let x = a.last_voted_proposal->0;
        let y = b.last_voted_proposal->0;
        lemma_held(cells::content(kv, Cell::LastVotedProposal), (x.0.0, x.1), (y.0.0, y.1));
    }
}

/// A store keeps one of each list.
proof fn lemma_one_of_each_list(kv: KeyValues, a: TreeView, b: TreeView)
    requires
        cells::keeps(kv, a),
        cells::keeps(kv, b),
    ensures
        a.committed_validators == b.committed_validators,
        a.previous_validators == b.previous_validators,
        a.speculative_commits == b.speculative_commits,
        a.evidence == b.evidence,
        a.reputation == b.reputation,
{
    lemma_cell(kv, a, b, Cell::CommittedValidatorSet);
    lemma_cell(kv, a, b, Cell::PreviousValidatorSet);
    lemma_cell(kv, a, b, Cell::SpeculativeCommits);
    lemma_cell(kv, a, b, Cell::EquivocationEvidence);
    lemma_cell(kv, a, b, Cell::LeaderReputation);
    if a.committed_validators is Some {
        lemma_held_list(
            cells::content(kv, Cell::CommittedValidatorSet),
            a.committed_validators->0,
            b.committed_validators->0,
        );
    }
    if a.previous_validators is Some {
        lemma_held_list(
            cells::content(kv, Cell::PreviousValidatorSet),
            a.previous_validators->0,
            b.previous_validators->0,
        );
    }
    if cells::content(kv, Cell::SpeculativeCommits) is Some {
        lemma_held_list(
            cells::content(kv, Cell::SpeculativeCommits),
            a.speculative_commits,
            b.speculative_commits,
        );
    } else {
        assert(a.speculative_commits =~= b.speculative_commits);
    }
    if cells::content(kv, Cell::EquivocationEvidence) is Some {
        lemma_held_list(
            cells::content(kv, Cell::EquivocationEvidence),
            a.evidence,
            b.evidence,
        );
    } else {
        assert(a.evidence =~= b.evidence);
    }
    if a.reputation is Some {
        let x = a.reputation->0;
        let y = b.reputation->0;
        lemma_records(
            cells::content(kv, Cell::LeaderReputation)->0,
            x.0,
            x.1,
            y.0,
            y.1,
        );
    }
}

/// A store keeps one tree: whatever it is read as says the same.
pub proof fn law_a_store_keeps_one_tree(kv: KeyValues, a: TreeView, b: TreeView)
    requires
        cells::keeps(kv, a),
        cells::keeps(kv, b),
    ensures
        same_tree(a, b),
{
    assert forall|block: CryptoHash|
        (#[trigger] a.blocks.contains_key(block) == b.blocks.contains_key(block)) && (
        a.blocks.contains_key(block) ==> a.blocks[block].says_same(&b.blocks[block])) by {
        lemma_one_block(kv, a, b, block);
    }
    assert(a.blocks.dom() =~= b.blocks.dom());
    assert forall|height: BlockHeight|
        (#[trigger] a.block_at_height.contains_key(height) == b.block_at_height.contains_key(
            height,
        )) && (a.block_at_height.contains_key(height) ==> a.block_at_height[height]
            == b.block_at_height[height]) by {
        lemma_cell(kv, a, b, Cell::BlockAtHeight(height));
        if a.block_at_height.contains_key(height) {
            lemma_held(
                cells::content(kv, Cell::BlockAtHeight(height)),
                a.block_at_height[height],
                b.block_at_height[height],
            );
        }
    }
    assert(a.block_at_height =~= b.block_at_height);
    assert forall|key: Seq<u8>|
        (#[trigger] a.app_state.contains_key(key) == b.app_state.contains_key(key)) && (
        a.app_state.contains_key(key) ==> a.app_state[key] == b.app_state[key]) by {
        lemma_cell(kv, a, b, Cell::AppState(key));
    }
    assert(a.app_state =~= b.app_state);
    assert forall|block: CryptoHash|
        (#[trigger] a.children.contains_key(block) == b.children.contains_key(block)) && (
        a.children.contains_key(block) ==> a.children[block] == b.children[block]) by {
        lemma_one_entry(kv, a, b, block);
    }
    assert(a.children =~= b.children);
    assert forall|block: CryptoHash|
        (#[trigger] a.pending_app_state.contains_key(block) == b.pending_app_state.contains_key(
            block,
        )) && (a.pending_app_state.contains_key(block) ==> a.pending_app_state[block].says_same(
            &b.pending_app_state[block],
        )) by {
        lemma_one_entry(kv, a, b, block);
    }
    assert(a.pending_app_state.dom() =~= b.pending_app_state.dom());
    assert forall|block: CryptoHash|
        (#[trigger] a.validator_set_updates.contains_key(block)
            == b.validator_set_updates.contains_key(block)) && (
        a.validator_set_updates.contains_key(block) ==> a.validator_set_updates[block].says_same(
            &b.validator_set_updates[block],
        )) by {
        lemma_one_entry(kv, a, b, block);
    }
    assert(a.validator_set_updates.dom() =~= b.validator_set_updates.dom());
    lemma_one_of_each_certificate(kv, a, b);
    lemma_one_of_each_number(kv, a, b);
    lemma_one_of_each_hash(kv, a, b);
    lemma_one_of_each_list(kv, a, b);
}

/// What is written is read back: whatever a store is read as, to which all changes were written
/// since the first, says the same as the tree.
pub proof fn law_what_is_written_is_read(changes: Seq<Change>, read: TreeView)
    requires
        cells::batch_fits(changes),
        cells::keeps(cells::after_writes(Map::empty(), cells::batch_writes(changes)), read),
    ensures
        same_tree(store::apply_changes(store::empty_tree(), changes), read),
{
    cells::law_a_store_keeps_all_that_was_written(changes);
    law_a_store_keeps_one_tree(
        cells::after_writes(Map::empty(), cells::batch_writes(changes)),
        store::apply_changes(store::empty_tree(), changes),
        read,
    );
}

} // verus!

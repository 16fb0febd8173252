//! The feed of committed blocks to the application.
//!
//! The committed frontier is durable before the application hears of a block. The feed therefore
//! keeps a frontier of its own, which is written after the application was told: a crash between
//! the two repeats a delivery and never loses one. Heights are delivered in ascending order and
//! none is skipped.

use vstd::prelude::*;

use crate::block_tree::cells::Cell;
use crate::block_tree::errors;
use crate::block_tree::errors::{BlockTreeError, Key};
use crate::block_tree::store;
use crate::block_tree::store::TreeView;
use crate::block_tree::tree;
use crate::block_tree::tree::BlockTreeSingleton;
use crate::block_tree::variables;
use crate::block_tree::write_batch::{Change, WriteOp};
use crate::effects::{Deed, Effect};
use crate::types::block::Block;
use crate::types::data_types::{BlockHeight, CryptoHash};

verus! {

/// One delivery to the application.
pub struct Delivery {
    pub height: int,
    pub hash: CryptoHash,
    pub block: Block,
}

/// The committed block of a height, where the tree holds both the entry and the block.
pub open spec fn readable(tree: TreeView, height: int) -> Option<(CryptoHash, Block)> {
    let key = BlockHeight(height as u64);
    if tree.block_at_height.contains_key(key) && tree.blocks.contains_key(
        tree.block_at_height[key],
    ) {
        Some((tree.block_at_height[key], tree.blocks[tree.block_at_height[key]]))
    } else {
        None
    }
}

/// Where a pass of the feed starts, and whether a height that cannot be read stops it there. A
/// feed without a frontier passes over the heights below the first that can be read.
pub open spec fn feed_start(tree: TreeView) -> Option<(int, bool)> {
    match tree::committed_height(tree) {
        None => None,
        Some(highest) => match tree.app_fed_height {
            Some(fed) => if fed.0 >= highest.0 {
                None
            } else {
                Some((fed.0 + 1, true))
            },
            None => match tree.pruned_height {
                Some(pruned) => Some((pruned.0 as int, false)),
                None => Some((0, false)),
            },
        },
    }
}

/// The deliveries from the height `from` up to `highest`.
pub open spec fn deliveries_from(tree: TreeView, from: int, highest: int, anchored: bool) -> Seq<
    Delivery,
>
    decreases highest - from + 1,
{
    if from > highest {
        Seq::empty()
    } else {
        match readable(tree, from) {
            Some((hash, block)) => seq![Delivery { height: from, hash, block }] + deliveries_from(
                tree,
                from + 1,
                highest,
                true,
            ),
            None => if anchored {
                Seq::empty()
            } else {
                deliveries_from(tree, from + 1, highest, false)
            },
        }
    }
}

/// The deliveries of one pass of the feed.
pub open spec fn deliveries(tree: TreeView) -> Seq<Delivery> {
    match feed_start(tree) {
        None => Seq::empty(),
        Some((start, anchored)) => deliveries_from(
            tree,
            start,
            (tree::committed_height(tree)->0).0 as int,
            anchored,
        ),
    }
}

/// The deed of one delivery.
pub open spec fn delivered(delivery: Delivery) -> Deed {
    Deed::Other(Effect::CommittedBlock(delivery.block, delivery.hash))
}

/// The deeds of one pass of the feed: the deliveries, and then the new frontier.
pub open spec fn feed_deeds(tree: TreeView) -> Seq<Deed> {
    let all = deliveries(tree);
    if all.len() == 0 {
        Seq::empty()
    } else {
        all.map_values(|d: Delivery| delivered(d)) + variables::written(
            WriteOp::SetAppFedHeight(BlockHeight(all.last().height as u64)),
        )
    }
}

/// A count, as far as it fits.
pub open spec fn saturated(count: nat) -> u64 {
    if count <= u64::MAX {
        count as u64
    } else {
        u64::MAX
    }
}

/// Why a pass of the feed fails, if it does: the frontier cannot be read, that of the feed, or where
/// pruning left off while the feed has none.
pub open spec fn feed_fault(tree: TreeView) -> Option<BlockTreeError> {
    if store::unread_at(tree, Cell::HighestCommittedBlock) {
        Some(errors::undecodable(Key::HighestCommittedBlock))
    } else if tree::committed_height(tree) is Some && (store::unread_at(tree, Cell::AppFedHeight)
        || (tree.app_fed_height is None && store::unread_at(tree, Cell::PrunedHeight))) {
        Some(errors::undecodable(Key::HighestCommittedBlock))
    } else {
        None
    }
}

/// Deliver every committed block that the application has not heard of, in ascending order of
/// height, and then move the frontier of the feed. Returns how many blocks were delivered.
pub fn feed_committed_blocks_to_app(block_tree: &mut BlockTreeSingleton) -> (r: Result<
    u64,
    BlockTreeError,
>)
    requires
        store::blocks_readable(old(block_tree)@),
    ensures
        match feed_fault(old(block_tree)@) {
            Some(e) => r == Err::<u64, BlockTreeError>(e) && *final(block_tree) == *old(block_tree),
            None => {
                &&& r == Ok::<u64, BlockTreeError>(saturated(deliveries(old(block_tree)@).len()))
                &&& tree::advanced(*old(block_tree), *final(block_tree), feed_deeds(old(block_tree)@))
            },
        },
        final(block_tree).gap_watch == old(block_tree).gap_watch,
{
    let ghost tree = block_tree@;
    proof {
        store::lemma_blocks_readable(tree);
        tree::lemma_advanced_refl(*block_tree);
    }
    let highest: u64 = match block_tree.highest_committed_block_height() {
        Ok(Some(highest)) => highest.0,
        Ok(None) => {
            return Ok(0);
        },
        Err(e) => {
            return Err(e);
        },
    };
    let mut anchored: bool = false;
    let mut height: u64 = 0;
    match block_tree.app_fed_block_height() {
        Ok(Some(fed)) => {
            if fed.0 >= highest {
                return Ok(0);
            }
            height = fed.0 + 1;
            anchored = true;
        },
        Ok(None) => {
            match block_tree.block_tree_pruned_height() {
                Ok(Some(pruned)) => {
                    height = pruned.0;
                },
                Ok(None) => {},
                Err(e) => {
                    return Err(e);
                },
            }
        },
        Err(e) => {
            return Err(e);
        },
    }
    let ghost whole = deliveries(tree);
    let ghost mut fed: Seq<Delivery> = Seq::empty();
    let mut count: u64 = 0;
    let mut last: Option<u64> = None;
    let mut finished: bool = height > highest;
    proof {
        assert(fed + deliveries_from(tree, height as int, highest as int, anchored) =~= whole);
        assert(fed.map_values(|d: Delivery| delivered(d)) =~= Seq::<Deed>::empty());
    }
    while !finished
        invariant
            store::blocks_readable(tree),
            tree::committed_height(tree) == Some(BlockHeight(highest)),
            block_tree@ == tree,
            old(block_tree)@ == tree,
            finished ==> whole == fed,
            !finished ==> height <= highest && whole == fed + deliveries_from(
                tree,
                height as int,
                highest as int,
                anchored,
            ),
            count == saturated(fed.len()),
            last is None <==> fed.len() == 0,
            last is Some ==> fed.last().height == last->0,
            block_tree.gap_watch == old(block_tree).gap_watch,
            tree::advanced(*old(block_tree), *block_tree, fed.map_values(|d: Delivery| delivered(d))),
        decreases if finished { 0int } else { highest - height + 1 },
    {
        let ghost before = *block_tree;
        proof {
            store::lemma_blocks_readable(tree);
        }
        let key = BlockHeight(height);
        let found: Option<(CryptoHash, Block)> = match block_tree.block_at_height(key) {
            Ok(Some(hash)) => match block_tree.block(&hash) {
                Ok(Some(block)) => Some((hash, block)),
                _ => None,
            },
            _ => None,
        };
        assert(found == readable(tree, height as int));
        match found {
            Some((hash, block)) => {
                let ghost delivery = Delivery { height: height as int, hash, block };
                block_tree.emit(Effect::CommittedBlock(block, hash));
                proof {
                    tree::lemma_advanced_trans(
                        *old(block_tree),
                        before,
                        *block_tree,
                        fed.map_values(|d: Delivery| delivered(d)),
                        seq![delivered(delivery)],
                    );
                    assert(fed.push(delivery).map_values(|d: Delivery| delivered(d))
                        =~= fed.map_values(|d: Delivery| delivered(d)) + seq![delivered(delivery)]);
                    tree::lemma_replay_one(tree, delivered(delivery));
                    let rest = deliveries_from(tree, height + 1, highest as int, true);
                    assert(fed + (seq![delivery] + rest) =~= fed.push(delivery) + rest);
                    fed = fed.push(delivery);
                    if height == highest {
                        assert(fed + rest =~= fed);
                    }
                }
                if count < u64::MAX {
                    count = count + 1;
                }
                last = Some(height);
                anchored = true;
                if height == highest {
                    finished = true;
                } else {
                    height = height + 1;
                }
            },
            None => {
                if anchored {
                    assert(whole =~= fed);
                    finished = true;
                } else {
                    if height == highest {
                        assert(deliveries_from(tree, height + 1, highest as int, false).len() == 0);
                        assert(whole =~= fed);
                        finished = true;
                    } else {
                        height = height + 1;
                    }
                }
            },
        }
    }
    match last {
        Some(height) => {
            let ghost before = *block_tree;
            let _ = block_tree.advance_app_fed_block_height(BlockHeight(height));
            proof {
                tree::lemma_advanced_trans(
                    *old(block_tree),
                    before,
                    *block_tree,
                    fed.map_values(|d: Delivery| delivered(d)),
                    variables::written(WriteOp::SetAppFedHeight(BlockHeight(height))),
                );
            }
        },
        None => {
            assert(fed.map_values(|d: Delivery| delivered(d)) =~= Seq::<Deed>::empty());
        },
    }
    Ok(count)
}

proof fn lemma_deliveries(tree: TreeView, from: int, highest: int, anchored: bool)
    requires
        0 <= from,
    ensures
        ({
            let all = deliveries_from(tree, from, highest, anchored);
            &&& forall|i: int|
                0 <= i < all.len() ==> (#[trigger] all[i]).height == all[0].height + i
            &&& forall|i: int|
                0 <= i < all.len() ==> readable(tree, (#[trigger] all[i]).height) == Some(
                    (all[i].hash, all[i].block),
                )
            &&& all.len() > 0 ==> from <= all[0].height && all.last().height <= highest
            &&& anchored && all.len() > 0 ==> all[0].height == from
            &&& all.len() > 0 && all.last().height < highest ==> readable(
                tree,
                all.last().height + 1,
            ) is None
            &&& anchored && all.len() == 0 && from <= highest ==> readable(tree, from) is None
        }),
    decreases highest - from + 1,
{
    if from <= highest {
        match readable(tree, from) {
            Some((hash, block)) => {
                let rest = deliveries_from(tree, from + 1, highest, true);
                let all = deliveries_from(tree, from, highest, anchored);
                lemma_deliveries(tree, from + 1, highest, true);
                assert(all == seq![Delivery { height: from, hash, block }] + rest);
                assert forall|i: int| 0 <= i < all.len() implies (#[trigger] all[i]).height
                    == all[0].height + i && readable(tree, all[i].height) == Some(
                    (all[i].hash, all[i].block),
                ) by {
                    if i > 0 {
                        assert(all[i] == rest[i - 1]);
                    }
                }
                if rest.len() > 0 {
                    assert(all.last() == rest.last());
                }
            },
            None => {
                if !anchored {
                    lemma_deliveries(tree, from + 1, highest, false);
                }
            },
        }
    }
}

/// A pass of the feed delivers consecutive heights in ascending order, each with its committed
/// block. It continues right above the frontier, and it ends at the committed frontier or below a
/// height that cannot be read. A pass that delivers nothing does nothing.
pub proof fn law_feed_is_in_order(tree: TreeView)
    ensures
        ({
            let all = deliveries(tree);
            &&& forall|i: int|
                0 <= i < all.len() ==> (#[trigger] all[i]).height == all[0].height + i
            &&& forall|i: int|
                0 <= i < all.len() ==> readable(tree, (#[trigger] all[i]).height) == Some(
                    (all[i].hash, all[i].block),
                )
            &&& all.len() > 0 && tree.app_fed_height is Some ==> all[0].height == (
            tree.app_fed_height->0).0 + 1
            &&& all.len() > 0 ==> all.last().height <= (tree::committed_height(tree)->0).0
            &&& all.len() > 0 && all.last().height < (tree::committed_height(tree)->0).0 ==> readable(
                tree,
                all.last().height + 1,
            ) is None
            &&& all.len() == 0 ==> feed_deeds(tree) == Seq::<Deed>::empty() && tree::replay(
                tree,
                feed_deeds(tree),
            ) == tree
        }),
{
    match feed_start(tree) {
        Some((start, anchored)) => {
            lemma_deliveries(tree, start, (tree::committed_height(tree)->0).0 as int, anchored);
        },
        None => {},
    }
}

proof fn lemma_same_deliveries(
    a: TreeView,
    b: TreeView,
    from: int,
    highest: int,
    anchored: bool,
)
    requires
        a.blocks == b.blocks,
        a.block_at_height == b.block_at_height,
    ensures
        deliveries_from(a, from, highest, anchored) == deliveries_from(b, from, highest, anchored),
    decreases highest - from + 1,
{
    if from <= highest {
        assert(readable(a, from) == readable(b, from));
        lemma_same_deliveries(a, b, from + 1, highest, true);
        lemma_same_deliveries(a, b, from + 1, highest, false);
    }
}

proof fn lemma_deliveries_only_move_frontier(tree: TreeView, fed: Seq<Delivery>)
    ensures
        tree::replay(tree, fed.map_values(|d: Delivery| delivered(d))) == tree,
    decreases fed.len(),
{
    let deeds = fed.map_values(|d: Delivery| delivered(d));
    if fed.len() > 0 {
        lemma_deliveries_only_move_frontier(tree, fed.drop_last());
        assert(deeds.drop_last() =~= fed.drop_last().map_values(|d: Delivery| delivered(d)));
        assert(deeds.last() == delivered(fed.last()));
    }
}

/// A pass of the feed right after another delivers nothing.
pub proof fn law_feed_is_idempotent(tree: TreeView)
    ensures
        deliveries(tree::replay(tree, feed_deeds(tree))) == Seq::<Delivery>::empty(),
{
    let all = deliveries(tree);
    let after = tree::replay(tree, feed_deeds(tree));
    if all.len() == 0 {
        lemma_advanced_nothing(tree);
    } else {
        law_feed_is_in_order(tree);
        let told = all.map_values(|d: Delivery| delivered(d));
        let op = WriteOp::SetAppFedHeight(BlockHeight(all.last().height as u64));
        tree::lemma_replay_concat(tree, told, variables::written(op));
        lemma_deliveries_only_move_frontier(tree, all);
        tree::lemma_replay_one(tree, Deed::Persist(seq![Change::Plain(op)]));
        assert(seq![Change::Plain(op)].drop_last() =~= Seq::<Change>::empty());
        assert(store::apply_changes(tree, Seq::<Change>::empty()) == tree);
        assert(after == store::apply_change(tree, Change::Plain(op)));
        assert(after.app_fed_height == Some(BlockHeight(all.last().height as u64)));
        assert(tree::committed_height(after) == tree::committed_height(tree));
        let start = feed_start(tree)->0;
        lemma_deliveries(tree, start.0, (tree::committed_height(tree)->0).0 as int, start.1);
        if all.last().height < (tree::committed_height(tree)->0).0 {
            assert(readable(after, all.last().height + 1) == readable(
                tree,
                all.last().height + 1,
            ));
        }
    }
}

proof fn lemma_advanced_nothing(tree: TreeView)
    ensures
        tree::replay(tree, Seq::<Deed>::empty()) == tree,
{
}

/// What a pass of the feed does: the application is told of each delivered block, with the hash under
/// which it is committed at its height, in ascending order; and then the last height is recorded as
/// fed, which the tree shows afterwards. Where every height from the frontier of the feed to the
/// committed frontier can be read, the application has heard of all that is committed.
pub proof fn law_feed_tells_the_application(tree: TreeView)
    requires
        tree::committed_height(tree) is Some,
        tree.app_fed_height is Some,
    ensures
        ({
            let top = (tree::committed_height(tree)->0).0;
            let fed = (tree.app_fed_height->0).0;
            let deeds = feed_deeds(tree);
            let after = tree::replay(tree, deeds);
            let n = deeds.len() - 1;
            &&& fed >= top ==> deeds.len() == 0
            &&& forall|i: int|
                0 <= i < n ==> ({
                    let height = BlockHeight((fed + 1 + i) as u64);
                    &&& tree.block_at_height.contains_key(height)
                    &&& #[trigger] deeds[i] == Deed::Other(
                        Effect::CommittedBlock(
                            tree.blocks[tree.block_at_height[height]],
                            tree.block_at_height[height],
                        ),
                    )
                })
            &&& deeds.len() > 0 ==> n > 0 && fed + n <= top && deeds[n] == Deed::Persist(
                seq![
                    Change::Plain(WriteOp::SetAppFedHeight(BlockHeight((fed + n) as u64))),
                ],
            ) && after.app_fed_height == Some(BlockHeight((fed + n) as u64))
            &&& fed < top && (forall|h: int|
                fed < h <= top ==> (#[trigger] readable(tree, h)) is Some) ==> after.app_fed_height
                == Some(BlockHeight(top))
        }),
{
    law_feed_is_in_order(tree);
    let top = (tree::committed_height(tree)->0).0;
    let fed = (tree.app_fed_height->0).0;
    let all = deliveries(tree);
    let deeds = feed_deeds(tree);
    if fed < top {
        lemma_deliveries(tree, fed + 1, top as int, true);
    }
    if all.len() > 0 {
        let told = all.map_values(|d: Delivery| delivered(d));
        let op = WriteOp::SetAppFedHeight(BlockHeight(all.last().height as u64));
        let written = variables::written(op);
        let n = all.len() as int;
        assert(all.last() == all[n - 1]);
        assert(all[n - 1].height == fed + n);
        assert forall|i: int| 0 <= i < n implies ({
            let height = BlockHeight((fed + 1 + i) as u64);
            &&& tree.block_at_height.contains_key(height)
            &&& #[trigger] deeds[i] == Deed::Other(
                Effect::CommittedBlock(
                    tree.blocks[tree.block_at_height[height]],
                    tree.block_at_height[height],
                ),
            )
        }) by {
            assert(deeds[i] == told[i]);
            assert(readable(tree, all[i].height) == Some((all[i].hash, all[i].block)));
            assert(all[i].height == fed + 1 + i);
        }
        lemma_deliveries_only_move_frontier(tree, all);
        tree::lemma_replay_concat(tree, told, written);
        let change = Change::Plain(op);
        tree::lemma_replay_one(tree, Deed::Persist(seq![change]));
        store::lemma_apply_push(tree, Seq::empty(), change);
        assert(Seq::<Change>::empty().push(change) =~= seq![change]);
        if forall|h: int| fed < h <= top ==> (#[trigger] readable(tree, h)) is Some {
            if all.last().height < top {
                assert(readable(tree, all.last().height + 1) is Some);
            }
        }
    } else if fed < top {
        assert(readable(tree, fed + 1) is None);
    }
}

} // verus!

//! What becomes of the bodies of blocks: those that arrive, those that wait, and those that are asked
//! for.

use vstd::prelude::*;

use crate::app::ValidateBlockResponse;
use crate::block_tree::sparing;
use crate::block_tree::sparing::Kind;
use crate::block_tree::store;
use crate::block_tree::tree;
use crate::block_tree::updates;
use crate::effects::{Deed, Effect};
use crate::events::Event;
use crate::hotstuff::acting;
use crate::hotstuff::bodies;
use crate::hotstuff::body_push;
use crate::hotstuff::body_push::{BODY_PUSH_HARD_CAP_BYTES, PUSHED_BODY_BUFFER_CAP};
use crate::hotstuff::fetching;
use crate::hotstuff::fetching::{BODY_RETRY_INTERVAL, MAX_BODY_RETRIES};
use crate::hotstuff::messages::{BlockDataRequest, ProposalHeader};
use crate::hotstuff::proposing;
use crate::hotstuff::speaking;
use crate::hotstuff::state;
use crate::hotstuff::state::{Fetch, HsView, Run};
use crate::hotstuff::types::Phase;
use crate::roles::Roles;
use crate::types::block::Block;
use crate::types::data_types::{CryptoHash, Power, VerifyingKey};
use crate::types::update_sets::AppStateUpdates;
use crate::types::validator_set::ValidatorSetUpdates;

verus! {

/// A body that arrives, whose parent is in the tree and which the application finds valid, is taken
/// in: the block is the first thing that is written. Then the tree acts on its certificate: unless
/// that fails, the highest certificate and the lock are at least as new as the certificate. Nothing
/// is said, and no vote is used.
pub proof fn law_valid_bodies_are_taken_in<R: Roles>(
    run: Run,
    roles: R,
    block: Block,
    app_state_updates: Option<AppStateUpdates>,
    validator_set_updates: Option<ValidatorSetUpdates>,
)
    requires
        tree::initialized(run.tree),
        block.justify.is_genesis() || run.tree.blocks.contains_key(block.justify.block),
    ensures
        ({
            let (after, is_taken_in) = bodies::body_tried(
                run,
                roles,
                block,
                ValidateBlockResponse::Valid { app_state_updates, validator_set_updates },
            );
            let changes = updates::insertion(
                run.tree,
                block,
                app_state_updates,
                validator_set_updates,
            );
            let outcome = updates::update_outcome(
                store::apply_changes(run.tree, changes),
                block.justify,
                roles,
                run.retention,
            );
            &&& is_taken_in
            &&& after.done.len() > run.done.len()
            &&& after.done[run.done.len() as int] == Deed::Persist(changes)
            &&& speaking::said(after.done) == speaking::said(run.done)
            &&& after.tree.highest_view_phase_voted == run.tree.highest_view_phase_voted
            &&& outcome is Ok ==> {
                &&& (after.tree.highest_pc->0).view.0 >= block.justify.view.0
                &&& block.justify.phase != Phase::Prepare ==> (after.tree.locked_pc->0).view.0
                    >= block.justify.view.0
            }
        }),
{
    let changes = updates::insertion(run.tree, block, app_state_updates, validator_set_updates);
    speaking::lemma_persisted(run, changes);
    let stored = state::did(run, seq![Deed::Persist(changes)]);
    speaking::lemma_told(stored, Event::InsertBlock { block });
    let inserted = state::told(stored, Event::InsertBlock { block });
    tree::lemma_changes_keep_initialized(run.tree, changes);
    let kind = Kind::Votes;
    assert(sparing::spares(kind, changes)) by {
        reveal(sparing::spares);
    }
    sparing::lemma_spares(kind, run.tree, changes);
    speaking::lemma_acted(inserted, roles, block.justify);
    let acted = acting::acted(inserted, roles, block.justify).0;
    assert(acted.done[run.done.len() as int] == inserted.done[run.done.len() as int]);
}

/// A body whose parent is not in the tree is not put before the application, and one that the
/// application does not find valid is not taken in: neither changes the tree, and nothing is said.
pub proof fn law_other_bodies_are_not_taken_in<R: Roles>(
    run: Run,
    roles: R,
    block: Block,
    response: ValidateBlockResponse,
)
    requires
        !(response is Valid) || (!block.justify.is_genesis() && !run.tree.blocks.contains_key(
            block.justify.block,
        )),
    ensures
        !bodies::body_tried(run, roles, block, response).1,
        bodies::body_tried(run, roles, block, response).0.tree == run.tree,
        bodies::body_tried(run, roles, block, response).0.done == run.done,
{
}

/// Nothing is awaited any more of a block that was taken in: neither by its header nor by a fetch.
/// What is awaited of other blocks stays awaited.
pub proof fn law_bodies_taken_in_are_not_awaited(run: Run, hash: CryptoHash, other: CryptoHash)
    ensures
        ({
            let after = bodies::body_done(run, hash);
            &&& !bodies::is_awaited(after.hs, hash)
            &&& !fetching::is_asked_for(after.hs, hash)
            &&& other != hash ==> bodies::is_awaited(after.hs, other) == bodies::is_awaited(
                run.hs,
                other,
            ) && fetching::is_asked_for(after.hs, other) == fetching::is_asked_for(run.hs, other)
            &&& after.tree == run.tree
            &&& after.done == run.done
        }),
{
    lemma_without_fetches(run.hs.body_fetches, hash, other);
    lemma_without_fetches(run.hs.justify_fetches, hash, other);
}

/// Leaving out the fetches of a block leaves those of the others.
proof fn lemma_without_fetches(fetches: Seq<Fetch>, hash: CryptoHash, other: CryptoHash)
    ensures
        !state::fetches_block(fetches.filter(state::fetches_other(hash)), hash),
        other != hash ==> state::fetches_block(
            fetches.filter(state::fetches_other(hash)),
            other,
        ) == state::fetches_block(fetches, other),
    decreases fetches.len(),
{
    reveal(Seq::filter);
    let kept = fetches.filter(state::fetches_other(hash));
    if fetches.len() > 0 {
        let fewer = fetches.drop_last();
        let n = fewer.len() as int;
        let some = fewer.filter(state::fetches_other(hash));
        lemma_without_fetches(fewer, hash, other);
        assert(fetches[n] == fetches.last());
        assert forall|i: int| 0 <= i < kept.len() implies (#[trigger] kept[i]).hash != hash by {
            if i < some.len() {
                assert(kept[i] == some[i]);
            }
        }
        if other != hash {
            if state::fetches_block(kept, other) {
                let i = choose|i: int| 0 <= i < kept.len() && (#[trigger] kept[i]).hash == other;
                if i < some.len() {
                    assert(some[i].hash == other);
                    let j = choose|j: int|
                        0 <= j < fewer.len() && (#[trigger] fewer[j]).hash == other;
                    assert(fetches[j].hash == other);
                } else {
                    assert(fetches[n].hash == other);
                }
            }
            if state::fetches_block(fetches, other) {
                let j = choose|j: int|
                    0 <= j < fetches.len() && (#[trigger] fetches[j]).hash == other;
                if j < n {
                    assert(fewer[j].hash == other);
                    let i = choose|i: int|
                        0 <= i < some.len() && (#[trigger] some[i]).hash == other;
                    assert(kept[i].hash == other);
                } else {
                    assert(kept[some.len() as int].hash == other);
                }
            }
        }
    }
}

/// A body that is put off waits behind the others, once, and is no longer asked for.
pub proof fn law_bodies_put_off_wait(run: Run, block: Block)
    ensures
        ({
            let after = bodies::body_put_off(run, block);
            &&& after.hs.deferred_bodies.len() > 0
            &&& after.hs.deferred_bodies.last() == block
            &&& forall|i: int|
                0 <= i < after.hs.deferred_bodies.len() - 1 ==> (
                #[trigger] after.hs.deferred_bodies[i]).hash != block.hash
            &&& !fetching::is_asked_for(after.hs, block.hash)
            &&& after.tree == run.tree
            &&& after.done == run.done
        }),
{
    let after = bodies::body_put_off(run, block);
    let others = run.hs.deferred_bodies.filter(state::is_other_block(block.hash));
    lemma_without_fetches(run.hs.body_fetches, block.hash, block.hash);
    lemma_without_fetches(run.hs.justify_fetches, block.hash, block.hash);
    assert forall|i: int| 0 <= i < after.hs.deferred_bodies.len() - 1 implies (
    #[trigger] after.hs.deferred_bodies[i]).hash != block.hash by {
        assert(after.hs.deferred_bodies[i] == others[i]);
        run.hs.deferred_bodies.lemma_filter_pred(state::is_other_block(block.hash), i);
    }
}

/// A body that came unasked is kept, as the newest one, exactly if the tree lacks the block, the body
/// is not too large, and no copy is kept. All that were kept stay, but for the oldest where there was
/// no place.
pub proof fn law_pushed_bodies_are_kept(run: Run, block: Block)
    ensures
        ({
            let before = run.hs.pushed_bodies;
            let after = bodies::parked(run, block).hs.pushed_bodies;
            let is_kept = {
                &&& !run.tree.blocks.contains_key(block.hash)
                &&& body_push::data_bytes(block.data@) <= BODY_PUSH_HARD_CAP_BYTES
                &&& forall|i: int|
                    0 <= i < before.len() ==> (#[trigger] before[i]).hash != block.hash
            };
            &&& !is_kept ==> bodies::parked(run, block) == run
            &&& is_kept && before.len() < PUSHED_BODY_BUFFER_CAP ==> after == before.push(block)
            &&& is_kept && before.len() >= PUSHED_BODY_BUFFER_CAP ==> after == before.skip(1).push(
                block,
            )
        }),
{
}

/// Whether a fetch has waited for as long as a request waits.
pub open spec fn has_waited(fetch: Fetch, now: u64) -> bool {
    now >= fetch.last_request + BODY_RETRY_INTERVAL
}

/// Whether a request for the block of a fetch is sent to a peer.
pub open spec fn asks_for(deed: Deed, hash: CryptoHash) -> bool {
    match deed {
        Deed::Other(Effect::RequestBlockData(_, request)) => request.block_hash == hash,
        _ => false,
    }
}

/// What becomes of one fetch as time passes: nothing before it has waited long enough. Then it is
/// given up if it was retried as often as may be, or if nothing is known of what to ask for; and
/// otherwise it is asked for once more and waits anew.
pub proof fn law_fetches_are_retried_and_given_up(
    hs: HsView,
    validators: Seq<(VerifyingKey, Power)>,
    fetches: Seq<Fetch>,
    fetch: Fetch,
    now: u64,
    by_header: bool,
)
    requires
        fetch.retries <= MAX_BODY_RETRIES,
    ensures
        ({
            let before = fetching::ticked(hs, validators, fetches, now, by_header);
            let after = fetching::ticked(hs, validators, fetches.push(fetch), now, by_header);
            let can_ask = !by_header || hs.pending_headers.contains_key(fetch.hash);
            &&& !has_waited(fetch, now) ==> {
                &&& after.kept == before.kept.push(fetch)
                &&& after.deeds == before.deeds
                &&& after.expired == before.expired
            }
            &&& has_waited(fetch, now) && (!can_ask || fetch.retries == MAX_BODY_RETRIES) ==> {
                &&& after.kept == before.kept
                &&& after.deeds == before.deeds
                &&& after.expired == before.expired.push(fetch.hash)
            }
            &&& has_waited(fetch, now) && can_ask && fetch.retries < MAX_BODY_RETRIES ==> {
                &&& after.kept.len() == before.kept.len() + 1
                &&& after.kept.drop_last() == before.kept
                &&& after.kept.last().hash == fetch.hash
                &&& after.kept.last().last_request == now
                &&& after.kept.last().retries == fetch.retries + 1
                &&& after.deeds.len() == before.deeds.len() + 1
                &&& after.deeds.drop_last() == before.deeds
                &&& !by_header ==> asks_for(after.deeds.last(), fetch.hash)
                &&& by_header ==> asks_for(
                    after.deeds.last(),
                    hs.pending_headers[fetch.hash].block_hash,
                )
                &&& after.deeds.last()->Other_0->RequestBlockData_0 == fetching::retry_peer(
                    validators,
                    hs.keypair.public_key(),
                    fetch,
                )
                &&& after.expired == before.expired
            }
        }),
{
    let longer = fetches.push(fetch);
    assert(longer.drop_last() =~= fetches);
    let before = fetching::ticked(hs, validators, fetches, now, by_header);
    let after = fetching::ticked(hs, validators, longer, now, by_header);
    if after.kept.len() > before.kept.len() {
        assert(after.kept.drop_last() =~= before.kept);
    }
    if after.deeds.len() > before.deeds.len() {
        assert(after.deeds.drop_last() =~= before.deeds);
    }
}

/// Leaving out keys leaves the others.
proof fn lemma_keys_but(keys: Seq<VerifyingKey>, origin: VerifyingKey, key: VerifyingKey)
    ensures
        fetching::keys_but(keys, origin).contains(key) <==> keys.contains(key) && key != origin,
    decreases keys.len(),
{
    let after = fetching::keys_but(keys, origin);
    if keys.len() > 0 {
        let fewer = keys.drop_last();
        let n = fewer.len() as int;
        lemma_keys_but(fewer, origin, key);
        let before = fetching::keys_but(fewer, origin);
        assert(keys[n] == keys.last());
        if after.contains(key) {
            let i = choose|i: int| 0 <= i < after.len() && after[i] == key;
            if i < before.len() {
                assert(before[i] == key);
                let j = choose|j: int| 0 <= j < fewer.len() && fewer[j] == key;
                assert(keys[j] == key);
            } else {
                assert(keys[n] == key);
            }
        }
        if keys.contains(key) && key != origin {
            let j = choose|j: int| 0 <= j < keys.len() && keys[j] == key;
            if j < n {
                assert(fewer[j] == key);
                let i = choose|i: int| 0 <= i < before.len() && before[i] == key;
                assert(after[i] == key);
            } else {
                assert(after[before.len() as int] == key);
            }
        }
    }
}

/// The others among the validators are exactly the validators but `me`.
pub proof fn law_others_are_all_but_oneself(
    validators: Seq<(VerifyingKey, Power)>,
    me: VerifyingKey,
    key: VerifyingKey,
)
    ensures
        proposing::others(validators, me).contains(key) <==> key != me && exists|i: int|
            0 <= i < validators.len() && (#[trigger] validators[i]).0 == key,
    decreases validators.len(),
{
    let after = proposing::others(validators, me);
    if validators.len() > 0 {
        let fewer = validators.drop_last();
        let n = fewer.len() as int;
        law_others_are_all_but_oneself(fewer, me, key);
        let before = proposing::others(fewer, me);
        assert(validators[n] == validators.last());
        if after.contains(key) {
            let i = choose|i: int| 0 <= i < after.len() && after[i] == key;
            if i < before.len() {
                assert(before[i] == key);
                let j = choose|j: int| 0 <= j < fewer.len() && (#[trigger] fewer[j]).0 == key;
                assert(validators[j].0 == key);
            } else {
                assert(validators[n].0 == key);
            }
        }
        if key != me && exists|i: int|
            0 <= i < validators.len() && (#[trigger] validators[i]).0 == key {
            let j = choose|j: int|
                0 <= j < validators.len() && (#[trigger] validators[j]).0 == key;
            if j < n {
                assert(fewer[j].0 == key);
                let i = choose|i: int| 0 <= i < before.len() && before[i] == key;
                assert(after[i] == key);
            } else {
                assert(after[before.len() as int] == key);
            }
        }
    }
}

/// A body is asked for again from who announced it first, and after that from other validators: never
/// from oneself, from who announced it only if there is nobody else, and from another one each time
/// as long as there are at least two.
pub proof fn law_retries_go_round(
    validators: Seq<(VerifyingKey, Power)>,
    me: VerifyingKey,
    fetch: Fetch,
    next: Fetch,
)
    requires
        next.hash == fetch.hash,
        next.origin == fetch.origin,
        next.retries == fetch.retries + 1,
    ensures
        ({
            let first = fetching::retry_peer(validators, me, fetch);
            let second = fetching::retry_peer(validators, me, next);
            let is_peer = |key: VerifyingKey|
                key != me && key != fetch.origin && exists|i: int|
                    0 <= i < validators.len() && (#[trigger] validators[i]).0 == key;
            &&& fetch.retries == 0 ==> first == fetch.origin
            &&& (exists|key: VerifyingKey| #[trigger] is_peer(key)) ==> is_peer(second)
            &&& !(exists|key: VerifyingKey| #[trigger] is_peer(key)) ==> second == fetch.origin
            &&& fetch.retries > 0 && fetching::keys_but(
                proposing::others(validators, me),
                fetch.origin,
            ).no_duplicates() && fetching::keys_but(
                proposing::others(validators, me),
                fetch.origin,
            ).len() > 1 ==> first != second
        }),
{
    let others = proposing::others(validators, me);
    let peers = fetching::keys_but(others, fetch.origin);
    let is_peer = |key: VerifyingKey|
        key != me && key != fetch.origin && exists|i: int|
            0 <= i < validators.len() && (#[trigger] validators[i]).0 == key;
    assert forall|key: VerifyingKey| peers.contains(key) <==> #[trigger] is_peer(key) by {
        lemma_keys_but(others, fetch.origin, key);
        law_others_are_all_but_oneself(validators, me, key);
    }
    if peers.len() > 0 {
        let n = peers.len() as int;
        let place = (next.retries - 1) % n;
        assert(0 <= place < n) by (nonlinear_arith)
            requires
                n > 0,
                place == (next.retries - 1) % n,
        ;
        assert(peers.contains(peers[place]));
        assert(is_peer(peers[place]));
        if fetch.retries > 0 && n > 1 {
            let before = (fetch.retries - 1) % n;
            assert(0 <= before < n && before != place) by (nonlinear_arith)
                requires
                    n > 1,
                    before == (fetch.retries - 1) % n,
                    place == (fetch.retries + 1 - 1) % n,
            ;
        }
    } else if exists|key: VerifyingKey| #[trigger] is_peer(key) {
        let key = choose|key: VerifyingKey| #[trigger] is_peer(key);
        assert(peers.contains(key));
    }
}

/// What a look for the block of the highest certificate asks for is lacking: the tree does not hold
/// it, and neither does its body wait for its parent.
pub proof fn law_what_is_asked_for_is_lacking(run: Run)
    requires
        fetching::lacking_block(run) is Some,
    ensures
        ({
            let hash = fetching::lacking_block(run)->0;
            &&& !run.tree.blocks.contains_key(hash)
            &&& forall|i: int|
                0 <= i < run.hs.deferred_bodies.len() ==> (
                #[trigger] run.hs.deferred_bodies[i]).hash != hash
            &&& !(run.tree.highest_pc->0).is_genesis()
        }),
{
    let pc = run.tree.highest_pc->0;
    lemma_wanted(
        run.tree,
        run.hs.deferred_bodies,
        pc.block,
        run.hs.deferred_bodies.len() + 1,
    );
}

proof fn lemma_wanted(
    tree: store::TreeView,
    deferred: Seq<Block>,
    hash: CryptoHash,
    limit: nat,
)
    requires
        fetching::wanted_block(tree, deferred, hash, limit) is Some,
    ensures
        ({
            let wanted = fetching::wanted_block(tree, deferred, hash, limit)->0;
            &&& !tree.blocks.contains_key(wanted)
            &&& forall|i: int|
                0 <= i < deferred.len() ==> (#[trigger] deferred[i]).hash != wanted
        }),
    decreases limit,
{
    match bodies::block_among(deferred, hash) {
        None => {
            lemma_not_among(deferred, hash);
        },
        Some(block) => {
            lemma_wanted(tree, deferred, block.justify.block, (limit - 1) as nat);
        },
    }
}

proof fn lemma_not_among(blocks: Seq<Block>, hash: CryptoHash)
    requires
        bodies::block_among(blocks, hash) is None,
    ensures
        forall|i: int| 0 <= i < blocks.len() ==> (#[trigger] blocks[i]).hash != hash,
    decreases blocks.len(),
{
    if blocks.len() > 0 {
        let fewer = blocks.drop_last();
        lemma_not_among(fewer, hash);
        assert forall|i: int| 0 <= i < blocks.len() implies (#[trigger] blocks[i]).hash
            != hash by {
            if i < fewer.len() {
                assert(fewer[i] == blocks[i]);
            }
        }
    }
}

/// A look for the block of the highest certificate, when it is time, asks one other validator for a
/// lacking block that is not asked for yet, and for nothing else. The next look is later. Before the
/// time nothing is done.
pub proof fn law_lacking_blocks_are_asked_for(run: Run, now: u64)
    ensures
        ({
            let after = fetching::missing_pc_checked(run, now);
            let me = run.hs.keypair.public_key();
            let peers = proposing::others(tree::validators_of(run.tree).committed, me);
            let lacking = fetching::lacking_block(run);
            &&& now < run.hs.pc_check_at ==> after == run
            &&& now >= run.hs.pc_check_at ==> {
                &&& after.tree == run.tree
                &&& after.hs.pc_check_at > now || now == u64::MAX
                &&& if lacking is Some && !fetching::is_asked_for(run.hs, lacking->0)
                    && peers.len() > 0 {
                    &&& fetching::is_asked_for(after.hs, lacking->0)
                    &&& speaking::said(after.done) == speaking::said(run.done).push(
                        Deed::Other(
                            Effect::RequestBlockData(
                                peers[0],
                                BlockDataRequest {
                                    chain_id: run.hs.chain_id,
                                    view: (run.tree.highest_pc->0).view,
                                    block_hash: lacking->0,
                                },
                            ),
                        ),
                    )
                } else {
                    after.done == run.done
                }
            }
        }),
{
    let me = run.hs.keypair.public_key();
    let peers = proposing::others(tree::validators_of(run.tree).committed, me);
    if now >= run.hs.pc_check_at {
        if let Some(hash) = fetching::lacking_block(run) {
            let looked = state::now_holding(
                run,
                HsView { pc_check_at: fetching::next_check(now), ..run.hs },
            );
            let request = BlockDataRequest {
                chain_id: run.hs.chain_id,
                view: (run.tree.highest_pc->0).view,
                block_hash: hash,
            };
            let deed = Deed::Other(Effect::RequestBlockData(peers[0], request));
            speaking::lemma_spoke(looked, deed);
            let after = fetching::missing_pc_checked(run, now);
            if !fetching::is_asked_for(run.hs, hash) && peers.len() > 0 {
                let n = run.hs.justify_fetches.len() as int;
                assert(after.hs.justify_fetches[n].hash == hash);
            }
        }
    }
}

/// Bodies that are given up call for a sync, and their headers are no longer awaited. As long as
/// none is given up, neither changes.
pub proof fn law_given_up_bodies_call_for_a_sync(run: Run, now: u64, hash: CryptoHash)
    ensures
        ({
            let validators = tree::validators_of(run.tree).committed;
            let by_header = fetching::ticked(
                run.hs,
                validators,
                run.hs.body_fetches,
                now,
                true,
            );
            let by_hash = fetching::ticked(
                run.hs,
                validators,
                run.hs.justify_fetches,
                now,
                false,
            );
            let bodies = fetching::bodies_ticked(run, now);
            let justifies = fetching::justifies_ticked(run, now);
            &&& bodies.hs.body_fetches == by_header.kept
            &&& bodies.done == run.done + by_header.deeds
            &&& by_header.expired.len() > 0 ==> bodies.hs.sync_needed
            &&& by_header.expired.len() == 0 ==> bodies.hs.sync_needed == run.hs.sync_needed
            &&& bodies.hs.pending_headers.contains_key(hash)
                <==> run.hs.pending_headers.contains_key(hash) && !by_header.expired.contains(hash)
            &&& bodies.hs.justify_fetches == run.hs.justify_fetches
            &&& justifies.hs.justify_fetches == by_hash.kept
            &&& justifies.done == run.done + by_hash.deeds
            &&& by_hash.expired.len() > 0 ==> justifies.hs.sync_needed
            &&& by_hash.expired.len() == 0 ==> justifies.hs.sync_needed == run.hs.sync_needed
            &&& justifies.hs.pending_headers == run.hs.pending_headers
            &&& justifies.hs.body_fetches == run.hs.body_fetches
        }),
{
    let validators = tree::validators_of(run.tree).committed;
    let outcome = fetching::ticked(run.hs, validators, run.hs.body_fetches, now, true);
    lemma_headers_without(run.hs.pending_headers, outcome.expired, hash);
}

proof fn lemma_headers_without(
    headers: Map<CryptoHash, ProposalHeader>,
    hashes: Seq<CryptoHash>,
    hash: CryptoHash,
)
    ensures
        fetching::headers_without(headers, hashes).contains_key(hash) <==> headers.contains_key(
            hash,
        ) && !hashes.contains(hash),
    decreases hashes.len(),
{
    if hashes.len() > 0 {
        let fewer = hashes.drop_last();
        lemma_headers_without(headers, fewer, hash);
        if hashes.contains(hash) && hash != hashes.last() {
            let i = choose|i: int| 0 <= i < hashes.len() && hashes[i] == hash;
            assert(fewer[i] == hash);
        }
        if fewer.contains(hash) {
            let i = choose|i: int| 0 <= i < fewer.len() && fewer[i] == hash;
            assert(hashes[i] == hash);
        }
        assert(hashes[hashes.len() - 1] == hashes.last());
    }
}

/// Whether `end` comes of `run` by taking in bodies that waited: it has used no vote and said nothing,
/// awaits nothing that was not awaited, and no body waits that did not wait before.
pub open spec fn only_took_in(run: Run, end: Run) -> bool {
    &&& speaking::said(end.done) == speaking::said(run.done)
    &&& end.tree.highest_view_phase_voted == run.tree.highest_view_phase_voted
    &&& end.hs.deferred_bodies.len() <= run.hs.deferred_bodies.len()
    &&& forall|block: Block| #[trigger]
        end.hs.deferred_bodies.contains(block) ==> run.hs.deferred_bodies.contains(block)
    &&& forall|hash: CryptoHash| #[trigger]
        end.hs.pending_headers.contains_key(hash) ==> run.hs.pending_headers.contains_key(hash)
}

/// Trying a body says nothing, and leaves what waits and what is awaited.
proof fn lemma_tried<R: Roles>(
    run: Run,
    roles: R,
    block: Block,
    response: ValidateBlockResponse,
)
    requires
        tree::initialized(run.tree),
    ensures
        ({
            let after = bodies::body_tried(run, roles, block, response).0;
            &&& tree::initialized(after.tree)
            &&& speaking::said(after.done) == speaking::said(run.done)
            &&& after.tree.highest_view_phase_voted == run.tree.highest_view_phase_voted
            &&& after.hs.deferred_bodies == run.hs.deferred_bodies
            &&& after.hs.pending_headers == run.hs.pending_headers
        }),
{
    if !bodies::lacks_parent(run.tree, block) {
        if let ValidateBlockResponse::Valid { app_state_updates, validator_set_updates } =
            response {
            law_valid_bodies_are_taken_in(
                run,
                roles,
                block,
                app_state_updates,
                validator_set_updates,
            );
            let changes = updates::insertion(
                run.tree,
                block,
                app_state_updates,
                validator_set_updates,
            );
            speaking::lemma_persisted(run, changes);
            tree::lemma_changes_keep_initialized(run.tree, changes);
            let stored = state::did(run, seq![Deed::Persist(changes)]);
            speaking::lemma_told(stored, Event::InsertBlock { block });
            let inserted = state::told(stored, Event::InsertBlock { block });
            speaking::lemma_acted(inserted, roles, block.justify);
        }
    }
}

/// Trying the bodies that wait, again and again, takes in some of them: it says nothing and uses no
/// vote, and nothing comes to wait or to be awaited by it.
pub proof fn law_draining_only_takes_in<R: Roles>(
    run: Run,
    roles: R,
    at: int,
    progress: bool,
    answers: Seq<ValidateBlockResponse>,
    end: Run,
)
    requires
        tree::initialized(run.tree),
        bodies::drains(run, roles, at, progress, answers, end),
    ensures
        only_took_in(run, end),
        tree::initialized(end.tree),
    decreases
            answers.len(),
            (if progress {
                1int
            } else {
                0int
            }),
{
    if at < 0 || at >= run.hs.deferred_bodies.len() {
        if progress {
            law_draining_only_takes_in(run, roles, 0, false, answers, end);
        }
    } else {
        reveal(bodies::drain_step);
        let block = run.hs.deferred_bodies[at];
        let (next, place, advancing) = bodies::drain_step(run, roles, at, progress, answers[0]);
        lemma_tried(run, roles, block, answers[0]);
        assert(answers.skip(1).len() == answers.len() - 1);
        law_draining_only_takes_in(next, roles, place, advancing, answers.skip(1), end);
        assert forall|b: Block| #[trigger]
            end.hs.deferred_bodies.contains(b) implies run.hs.deferred_bodies.contains(b) by {
            assert(next.hs.deferred_bodies.contains(b));
            let i = choose|i: int|
                0 <= i < next.hs.deferred_bodies.len() && next.hs.deferred_bodies[i] == b;
            let waiting = run.hs.deferred_bodies;
            if next.hs.deferred_bodies.len() == waiting.len() {
                assert(waiting[i] == b);
            } else if i < at {
                assert(waiting[i] == b);
            } else {
                assert(waiting[i + 1] == b);
            }
        }
        assert forall|hash: CryptoHash| #[trigger]
            end.hs.pending_headers.contains_key(hash) implies run.hs.pending_headers.contains_key(
            hash,
        ) by {
            assert(next.hs.pending_headers.contains_key(hash));
        }
    }
}

/// The arrival of a body that is awaited says nothing and uses no vote. If its parent is in the tree
/// and the application finds it valid, its header is no longer awaited; otherwise it waits behind the
/// others.
pub proof fn law_awaited_bodies_are_taken_in_or_wait<R: Roles>(
    run: Run,
    roles: R,
    block: Block,
    answers: Seq<ValidateBlockResponse>,
    end: Run,
)
    requires
        tree::initialized(run.tree),
        bodies::body_accepted(run, roles, block, answers, end),
    ensures
        speaking::said(end.done) == speaking::said(run.done),
        end.tree.highest_view_phase_voted == run.tree.highest_view_phase_voted,
        ({
            let has_parent = block.justify.is_genesis() || run.tree.blocks.contains_key(
                block.justify.block,
            );
            if has_parent && answers[0] is Valid {
                !end.hs.pending_headers.contains_key(block.hash)
            } else {
                &&& end.tree == run.tree
                &&& end.hs.deferred_bodies.len() > 0
                &&& end.hs.deferred_bodies.last() == block
            }
        }),
{
    let (next, is_taken_in) = bodies::body_tried(run, roles, block, answers[0]);
    lemma_tried(run, roles, block, answers[0]);
    if is_taken_in {
        law_draining_only_takes_in(
            bodies::body_done(next, block.hash),
            roles,
            0,
            false,
            answers.skip(1),
            end,
        );
    } else {
        law_bodies_put_off_wait(next, block);
    }
}

} // verus!

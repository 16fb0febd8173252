//! What holds of every step of the sync client.

use vstd::prelude::*;

use crate::app::ValidateBlockResponse;
use crate::block_sync::messages::AdvertiseBlock;
use crate::block_sync::policy;
use crate::block_sync::policy::RequestOutcome;
use crate::block_sync::session;
use crate::block_sync::session::{
    BlockSyncClientError, ClientView, Shunned, SyncRun, SyncServer, SyncWork, WorkerPoll,
    MAX_SYNC_ITERATIONS, NO_SERVER_RETRY_INTERVAL,
};
use crate::block_sync::worker::{SyncCommand, SyncResult};
use crate::block_tree::commit;
use crate::block_tree::commit_laws;
use crate::block_tree::invariants;
use crate::block_tree::laws;
use crate::block_tree::retention::Retention;
use crate::block_tree::sparing;
use crate::block_tree::sparing::Kind;
use crate::block_tree::store;
use crate::block_tree::store::TreeView;
use crate::block_tree::tree;
use crate::block_tree::updates;
use crate::codec;
use crate::effects::{Deed, Effect};
use crate::events::Event;
use crate::hotstuff::acting;
use crate::hotstuff::certificates;
use crate::hotstuff::types::{Phase, PhaseCertificate};
use crate::roles::Roles;
use crate::types::block::Block;
use crate::types::data_types::{BlockHeight, CryptoHash, VerifyingKey};
use crate::types::update_sets::AppStateUpdates;
use crate::types::validator_set;
use crate::types::validator_set::{ValidatorSetUpdates, ValidatorSetUpdatesStatus};

verus! {

/// A fetched block is put before the application only if it is correct, is not in the tree, and
/// does not contradict the committed chain.
pub proof fn law_fetched_blocks_extend_the_committed_chain(run: SyncRun, now: u64)
    requires
        session::block_taken_up(run, now).1 is Validate,
    ensures
        ({
            let block = session::block_taken_up(run, now).1->Validate_0;
            &&& invariants::block_correct(run.tree, block)
            &&& !run.tree.blocks.contains_key(block.hash)
            &&& run.tree.block_at_height.contains_key(block.height)
                ==> run.tree.block_at_height[block.height] == block.hash
        }),
{
    lemma_unknown_blocks_are_unknown(run.tree, (run.client.session->0).pending_blocks);
}

/// The first of the unknown blocks is not in the tree.
proof fn lemma_unknown_blocks_are_unknown(tree: TreeView, blocks: Seq<Block>)
    ensures
        session::unknown_blocks(tree, blocks).len() > 0 ==> !tree.blocks.contains_key(
            session::unknown_blocks(tree, blocks)[0].hash,
        ),
    decreases blocks.len(),
{
    if blocks.len() > 0 && tree.blocks.contains_key(blocks[0].hash) {
        lemma_unknown_blocks_are_unknown(tree, blocks.skip(1));
    }
}

/// A block whose data is missing is held against nobody.
pub proof fn law_missing_data_shuns_nobody<R: Roles>(
    run: SyncRun,
    roles: R,
    block: Block,
    now: u64,
)
    ensures
        ({
            let after = session::fetched_settled(
                run,
                roles,
                block,
                ValidateBlockResponse::MissingData,
                now,
            ).client;
            after.blacklist == run.client.blacklist && after.servers == run.client.servers
        }),
{
}

/// A peer is not shunned for what it brought to a session that fills a gap.
pub proof fn law_backfill_shuns_nobody(run: SyncRun, now: u64)
    requires
        run.client.session is Some,
        (run.client.session->0).is_backfill,
    ensures
        session::session_closed(run, now).client.blacklist == run.client.blacklist,
        session::session_closed(run, now).client.servers == run.client.servers,
{
}

/// An attempt that finds no peer is due again after a short while, however long the client waits
/// for progress otherwise.
pub proof fn law_no_server_is_retried(run: SyncRun, now: u64, later: u64)
    requires
        run.client.session is None,
        later >= session::after_delay(now, NO_SERVER_RETRY_INTERVAL),
    ensures
        session::session_requested(run, None, now).1 == RequestOutcome::NoServer,
        session::session_requested(run, None, now).0.client.session is None,
        session::session_requested(run, None, now).0.client.last_progress == run.client.last_progress,
        session::is_sync_due(session::session_requested(run, None, now).0, later),
{
}

/// A gap below the committed frontier is fetched before anything above it, and pruned heights are
/// never taken for a gap.
pub proof fn law_gaps_come_first(client: ClientView, tree: TreeView)
    requires
        session::sync_start(client, tree).1,
    ensures
        ({
            let gap = session::sync_start(client, tree).0;
            &&& gap.0 <= (tree::committed_height(tree)->0).0
            &&& !tree.block_at_height.contains_key(gap)
            &&& tree.pruned_height is Some && (tree.pruned_height->0).0 < u64::MAX ==> gap.0 > (
            tree.pruned_height->0).0
        }),
{
    let top = (tree::committed_height(tree)->0).0 as int;
    lemma_lowest_gap_is_a_gap(tree, session::scan_start(client, tree) as int, top);
}

/// What the scan finds is a gap in its range.
proof fn lemma_lowest_gap_is_a_gap(tree: TreeView, from: int, highest: int)
    requires
        0 <= from,
        highest <= u64::MAX,
        session::lowest_gap(tree, from, highest) is Some,
    ensures
        from <= session::lowest_gap(tree, from, highest)->0 <= highest,
        !tree.block_at_height.contains_key(
            BlockHeight(session::lowest_gap(tree, from, highest)->0),
        ),
    decreases highest - from + 1,
{
    if tree.block_at_height.contains_key(
        BlockHeight(from as u64),
    ) {
        lemma_lowest_gap_is_a_gap(tree, from + 1, highest);
    }
}

/// A session never fetches from the same height twice in a row, and fetches a bounded number of
/// batches.
pub proof fn law_sessions_make_progress_or_end(run: SyncRun, now: u64)
    requires
        run.client.session is Some,
        !(run.client.session->0).awaiting_fetch,
    ensures
        ({
            let after = session::batch_requested(run, now).client.session;
            after is Some ==> {
                &&& (after->0).awaiting_fetch
                &&& (after->0).last_start != (run.client.session->0).last_start
                &&& (after->0).fetch_iterations == (run.client.session->0).fetch_iterations + 1
                &&& (after->0).fetch_iterations <= MAX_SYNC_ITERATIONS
            }
        }),
{
}

/// What acting on a certificate makes of the highest certificate and the lock.
proof fn lemma_act_deeds<R: Roles>(
    tree: TreeView,
    roles: R,
    justify: PhaseCertificate,
    retention: Retention,
)
    requires
        tree::initialized(tree),
    ensures
        ({
            let after = tree::replay(tree, acting::act_deeds(tree, roles, justify, retention));
            &&& tree::initialized(after)
            &&& (after.highest_pc->0).view.0 >= (tree.highest_pc->0).view.0
            &&& (after.locked_pc->0).view.0 >= (tree.locked_pc->0).view.0
            &&& updates::update_outcome(tree, justify, roles, retention) is Ok ==> {
                &&& (after.highest_pc->0).view.0 >= justify.view.0
                &&& justify.phase != Phase::Prepare ==> (after.locked_pc->0).view.0
                    >= justify.view.0
            }
        }),
{
    let all = acting::act_deeds(tree, roles, justify, retention);
    tree::lemma_replay_keeps_initialized(tree, all);
    match updates::update_outcome(tree, justify, roles, retention) {
        Ok((deeds, committed)) => {
            laws::law_update_only_moves_forward(tree, justify, roles, retention);
            let middle = tree::replay(tree, deeds);
            let news = acting::news_deeds(middle, committed);
            tree::lemma_replay_concat(tree, deeds, news);
            let kind = Kind::Certificates;
            sparing::lemma_feeding(kind, middle);
            assert(sparing::deeds_spare(kind, news)) by {
                reveal(sparing::deeds_spare);
            }
            sparing::lemma_deeds_spare(kind, middle, news);
        },
        Err(_) => {
            assert(tree::replay(tree, all) == tree);
        },
    }
}

/// A fetched block that the application finds valid is written first, with what comes with it, and
/// counts as one more block of the session. Then the tree acts on its certificate and, where it can,
/// on the one that the peer reported: the highest certificate never moves back, and is at least as
/// new as that of the block unless acting on it fails.
pub proof fn law_valid_fetched_blocks_are_taken_in<R: Roles>(
    run: SyncRun,
    roles: R,
    block: Block,
    app_state_updates: Option<AppStateUpdates>,
    validator_set_updates: Option<ValidatorSetUpdates>,
    now: u64,
)
    requires
        tree::initialized(run.tree),
        run.client.session is Some,
        (run.client.session->0).blocks_synced < u64::MAX,
    ensures
        ({
            let after = session::fetched_settled(
                run,
                roles,
                block,
                ValidateBlockResponse::Valid { app_state_updates, validator_set_updates },
                now,
            );
            let changes = updates::insertion(
                run.tree,
                block,
                app_state_updates,
                validator_set_updates,
            );
            let inserted = store::apply_changes(run.tree, changes);
            &&& after.done.len() > run.done.len()
            &&& after.done[run.done.len() as int] == Deed::Persist(changes)
            &&& after.client.session is Some
            &&& (after.client.session->0).blocks_synced == (
            run.client.session->0).blocks_synced + 1
            &&& after.client.blacklist == run.client.blacklist
            &&& (after.tree.highest_pc->0).view.0 >= (run.tree.highest_pc->0).view.0
            &&& updates::update_outcome(inserted, block.justify, roles, run.retention) is Ok ==> (
            after.tree.highest_pc->0).view.0 >= block.justify.view.0
        }),
{
    let changes = updates::insertion(run.tree, block, app_state_updates, validator_set_updates);
    let written = session::sync_did(run, seq![Deed::Persist(changes)]);
    tree::lemma_replay_one(run.tree, Deed::Persist(changes));
    let event = Event::InsertBlock { block };
    let inserted = session::sync_did(written, session::sync_told(event));
    tree::lemma_replay_one(written.tree, Deed::Other(Effect::Publish(event)));
    tree::lemma_changes_keep_initialized(run.tree, changes);
    let kind = Kind::Certificates;
    assert(sparing::spares(kind, changes)) by {
        reveal(sparing::spares);
    }
    sparing::lemma_spares(kind, run.tree, changes);
    lemma_act_deeds(inserted.tree, roles, block.justify, run.retention);
    let acted = session::sync_acted(inserted, roles, block.justify);
    let counted = session::client_now(acted, session::one_more_synced(acted.client));
    if let Some(pc) = session::usable_highest_pc(counted) {
        lemma_act_deeds(counted.tree, roles, pc, run.retention);
    }
}

/// After a valid fetched block, a certificate that the peer reported and that is correct and safe by
/// then brings the highest certificate up to it, unless acting on it fails.
pub proof fn law_reported_certificates_are_acted_on<R: Roles>(
    run: SyncRun,
    roles: R,
    pc: PhaseCertificate,
)
    requires
        tree::initialized(run.tree),
        run.client.session is Some,
        (run.client.session->0).highest_pc == Some(pc),
        certificates::pc_correct(run.tree, pc),
        invariants::pc_safe(run.tree, pc, run.client.config.chain_id),
        updates::update_outcome(run.tree, pc, roles, run.retention) is Ok,
    ensures
        session::usable_highest_pc(run) == Some(pc),
        (session::sync_acted(run, roles, pc).tree.highest_pc->0).view.0 >= pc.view.0,
{
    lemma_act_deeds(run.tree, roles, pc, run.retention);
}

/// Whether a peer is shunned until the time for which peers are shunned has passed, and is not among
/// the servers.
pub open spec fn is_sent_away(client: ClientView, peer: VerifyingKey, now: u64) -> bool {
    &&& exists|i: int|
        0 <= i < client.blacklist.len() && (#[trigger] client.blacklist[i]).key == peer
            && client.blacklist[i].until == (if now + client.config.blacklist_expiry_time
            <= u64::MAX {
            now + client.config.blacklist_expiry_time
        } else {
            u64::MAX as int
        })
    &&& forall|i: int|
        0 <= i < client.servers.len() ==> (#[trigger] client.servers[i]).key != peer
}

/// What ending a session leaves of the servers and the shunned.
proof fn lemma_session_ended(run: SyncRun, now: u64)
    ensures
        session::session_ended(run, now).client.session is None,
        session::session_ended(run, now).client.blacklist == run.client.blacklist,
        session::session_ended(run, now).client.servers == run.client.servers,
        session::session_ended(run, now).client.config == run.client.config,
        session::session_ended(run, now).tree == run.tree,
{
    if let Some(s) = run.client.session {
        let event = Event::EndSync { peer: s.peer, blocks_synced: s.blocks_synced };
        tree::lemma_replay_one(run.tree, Deed::Other(Effect::Publish(event)));
    }
}

/// A peer that is shunned is sent away.
proof fn lemma_shunned(client: ClientView, peer: VerifyingKey, now: u64)
    ensures
        is_sent_away(session::shunned(client, peer, now), peer, now),
        session::shunned(client, peer, now).session == client.session,
{
    let after = session::shunned(client, peer, now);
    let n = client.blacklist.len() as int;
    assert(after.blacklist[n].key == peer);
    assert forall|i: int| 0 <= i < after.servers.len() implies (#[trigger] after.servers[i]).key
        != peer by {
        client.servers.lemma_filter_pred(session::is_other_server(peer), i);
    }
}

/// A fetched block that the application finds invalid is not written: the session ends, and the peer
/// is shunned for a while and no longer counts as a server.
pub proof fn law_invalid_blocks_send_the_peer_away<R: Roles>(
    run: SyncRun,
    roles: R,
    block: Block,
    now: u64,
)
    requires
        run.client.session is Some,
    ensures
        ({
            let after = session::fetched_settled(
                run,
                roles,
                block,
                ValidateBlockResponse::Invalid,
                now,
            );
            &&& after.tree == run.tree
            &&& after.client.session is None
            &&& is_sent_away(after.client, (run.client.session->0).peer, now)
        }),
{
    let peer = (run.client.session->0).peer;
    lemma_shunned(run.client, peer, now);
    lemma_session_ended(
        session::client_now(run, session::shunned(run.client, peer, now)),
        now,
    );
}

/// Whether a place is the first of a list at which there is a block that the tree lacks.
pub open spec fn is_first_unknown(tree: TreeView, blocks: Seq<Block>, at: int) -> bool {
    &&& 0 <= at < blocks.len()
    &&& !tree.blocks.contains_key(blocks[at].hash)
    &&& forall|i: int| 0 <= i < at ==> tree.blocks.contains_key((#[trigger] blocks[i]).hash)
}

proof fn lemma_first_unknown(tree: TreeView, blocks: Seq<Block>, at: int)
    requires
        is_first_unknown(tree, blocks, at),
    ensures
        session::unknown_blocks(tree, blocks) == blocks.skip(at),
    decreases at,
{
    if at > 0 {
        let rest = blocks.skip(1);
        assert(tree.blocks.contains_key(blocks[0].hash));
        assert forall|i: int| 0 <= i < at - 1 implies tree.blocks.contains_key(
            (#[trigger] rest[i]).hash,
        ) by {
            assert(rest[i] == blocks[i + 1]);
        }
        assert(rest[at - 1] == blocks[at]);
        lemma_first_unknown(tree, rest, at - 1);
        assert(rest.skip(at - 1) =~= blocks.skip(at));
    } else {
        assert(blocks.skip(0) =~= blocks);
    }
}

/// The blocks that a peer brought are looked at in order, passing over those that the tree holds. A
/// block that is not correct ends the session, and its peer is sent away. A correct block that
/// contradicts the block committed at its height is refused with an error that names both, the
/// application is told that its chain is contradicted, and the session ends. Every other block is put
/// before the application. In no case is anything written.
pub proof fn law_fetched_blocks_are_looked_at_in_order(run: SyncRun, now: u64, at: int)
    requires
        run.client.session is Some,
        !(run.client.session->0).awaiting_fetch,
        is_first_unknown(run.tree, (run.client.session->0).pending_blocks, at),
    ensures
        ({
            let peer = (run.client.session->0).peer;
            let pending = (run.client.session->0).pending_blocks;
            let block = pending[at];
            let (after, work) = session::block_taken_up(run, now);
            let correct = block.hash_matches() && certificates::pc_correct(
                run.tree,
                block.justify,
            );
            let contradicts = run.tree.block_at_height.contains_key(block.height)
                && run.tree.block_at_height[block.height] != block.hash;
            &&& after.tree == run.tree
            &&& !correct ==> work is Handled && after.client.session is None && is_sent_away(
                after.client,
                peer,
                now,
            )
            &&& correct && contradicts ==> {
                &&& work == SyncWork::Refused(
                    BlockSyncClientError::ConflictingCommittedChain {
                        height: block.height,
                        local: Some(run.tree.block_at_height[block.height]),
                        synced: block.hash,
                    },
                )
                &&& after.client.session is None
                &&& after.done.len() > run.done.len()
                &&& after.done[run.done.len() as int] == Deed::Other(Effect::FatalSafetyViolation)
            }
            &&& correct && !contradicts ==> {
                &&& work == SyncWork::Validate(block)
                &&& after.done == run.done
                &&& after.client.session is Some
                &&& (after.client.session->0).pending_blocks == pending.skip(at + 1)
            }
        }),
{
    let s = run.client.session->0;
    lemma_first_unknown(run.tree, s.pending_blocks, at);
    let unknown = session::unknown_blocks(run.tree, s.pending_blocks);
    assert(unknown[0] == s.pending_blocks[at]);
    assert(unknown.skip(1) =~= s.pending_blocks.skip(at + 1));
    let taken = session::client_now(run, session::with_pending(run.client, unknown.skip(1)));
    lemma_shunned(taken.client, s.peer, now);
    lemma_session_ended(
        session::client_now(taken, session::shunned(taken.client, s.peer, now)),
        now,
    );
    let fatal = Deed::Other(Effect::FatalSafetyViolation);
    tree::lemma_replay_one(taken.tree, fatal);
    lemma_session_ended(session::sync_did(taken, seq![fatal]), now);
}

/// A session that starts asks the chosen peer, once and for the client's chain and limit, for the
/// blocks from the lowest committed height that is missing on, or, where none is missing, from right
/// above the committed frontier; a replica that has committed nothing asks from the first height.
pub proof fn law_sessions_ask_for_what_is_missing(run: SyncRun, peer: VerifyingKey, now: u64)
    requires
        run.client.session is None,
    ensures
        ({
            let (after, outcome) = session::session_requested(run, Some(peer), now);
            let last = after.done.last();
            &&& outcome == RequestOutcome::Started
            &&& after.tree == run.tree
            &&& after.client.session is Some
            &&& (after.client.session->0).peer == peer
            &&& (after.client.session->0).awaiting_fetch
            &&& (after.client.session->0).pending_blocks.len() == 0
            &&& (after.client.session->0).blocks_synced == 0
            &&& after.done.len() == run.done.len() + 2
            &&& last matches Deed::Other(
                Effect::FetchBlocks(SyncCommand::Fetch { peer: from, chain_id, start_height, limit }),
            ) && {
                &&& from == peer
                &&& chain_id == run.client.config.chain_id
                &&& limit == run.client.config.request_limit
                &&& tree::committed_height(run.tree) is None ==> start_height.0 == 0
                &&& tree::committed_height(run.tree) matches Some(top) ==> ({
                    let first = session::scan_start(run.client, run.tree);
                    ||| first <= start_height.0 <= top.0
                        && !run.tree.block_at_height.contains_key(start_height) && (forall|h: u64|
                        first <= h < start_height.0
                            ==> #[trigger] run.tree.block_at_height.contains_key(BlockHeight(h)))
                    ||| (forall|h: u64|
                        first <= h <= top.0 ==> #[trigger] run.tree.block_at_height.contains_key(
                            BlockHeight(h),
                        )) && (start_height.0 == top.0 + 1 || top.0 == u64::MAX)
                })
            }
        }),
{
    let start = session::sync_start(run.client, run.tree).0;
    let event = Event::StartSync { peer };
    tree::lemma_replay_one(run.tree, Deed::Other(Effect::Publish(event)));
    let told = session::sync_did(run, session::sync_told(event));
    let fetch = session::fetch_deed(run.client.config, peer, start);
    tree::lemma_replay_one(told.tree, fetch[0]);
    let after = session::sync_did(told, fetch);
    assert(after.done.last() == fetch[0]);
    if let Some(top) = tree::committed_height(run.tree) {
        lemma_lowest_gap(
            run.tree,
            session::scan_start(run.client, run.tree) as int,
            top.0 as int,
        );
    }
}

/// What the scan finds is the lowest height of its range without a committed block.
proof fn lemma_lowest_gap(tree: TreeView, from: int, highest: int)
    requires
        0 <= from,
        highest <= u64::MAX,
    ensures
        match session::lowest_gap(tree, from, highest) {
            Some(gap) => from <= gap <= highest && !tree.block_at_height.contains_key(
                BlockHeight(gap),
            ) && (forall|h: u64|
                from <= h < gap ==> #[trigger] tree.block_at_height.contains_key(BlockHeight(h))),
            None => forall|h: u64|
                from <= h <= highest ==> #[trigger] tree.block_at_height.contains_key(
                    BlockHeight(h),
                ),
        },
    decreases highest - from + 1,
{
    if from <= highest && tree.block_at_height.contains_key(BlockHeight(from as u64)) {
        lemma_lowest_gap(tree, from + 1, highest);
        assert forall|h: u64|
            from <= h <= highest && (session::lowest_gap(tree, from, highest) is Some ==> h
                < session::lowest_gap(
                tree,
                from,
                highest,
            )->0) implies #[trigger] tree.block_at_height.contains_key(BlockHeight(h)) by {
            if h == from {
                assert(BlockHeight(h) == BlockHeight(from as u64));
            }
        }
    }
}

/// A session starts with a peer that is a known server and serves at least up to the committed
/// frontier, and with any such peer one can start.
pub proof fn law_sessions_start_with_fit_servers(
    servers: Seq<SyncServer>,
    frontier: Option<BlockHeight>,
    key: VerifyingKey,
)
    ensures
        session::fit_servers(servers, frontier).contains(key) <==> exists|i: int|
            0 <= i < servers.len() && (#[trigger] servers[i]).key == key && (frontier is None
                || servers[i].height.0 >= (frontier->0).0),
    decreases servers.len(),
{
    let fit = session::fit_servers(servers, frontier);
    if servers.len() > 0 {
        let fewer = servers.drop_last();
        let n = fewer.len() as int;
        law_sessions_start_with_fit_servers(fewer, frontier, key);
        let before = session::fit_servers(fewer, frontier);
        assert(servers[n] == servers.last());
        if fit.contains(key) {
            let at = choose|at: int| 0 <= at < fit.len() && fit[at] == key;
            if at < before.len() {
                assert(before[at] == key);
                let i = choose|i: int|
                    0 <= i < fewer.len() && (#[trigger] fewer[i]).key == key && (frontier is None
                        || fewer[i].height.0 >= (frontier->0).0);
                assert(servers[i] == fewer[i]);
            } else {
                assert(servers[n].key == key);
            }
        }
        if exists|i: int|
            0 <= i < servers.len() && (#[trigger] servers[i]).key == key && (frontier is None
                || servers[i].height.0 >= (frontier->0).0) {
            let i = choose|i: int|
                0 <= i < servers.len() && (#[trigger] servers[i]).key == key && (frontier is None
                    || servers[i].height.0 >= (frontier->0).0);
            if i < n {
                assert(fewer[i] == servers[i]);
                let at = choose|at: int| 0 <= at < before.len() && before[at] == key;
                assert(fit[at] == key);
            } else {
                assert(fit[before.len() as int] == key);
            }
        }
    }
}

/// A peer that advertises the height up to which it serves is known as a server with that height, and
/// with no other, exactly if the advertisement is for the client's chain and signed by the peer, the
/// peer may serve, and it is not shunned. Otherwise, and for all other peers, nothing changes.
pub proof fn law_advertised_heights_are_noted(
    client: ClientView,
    tree: TreeView,
    advertisement: AdvertiseBlock,
    origin: VerifyingKey,
)
    ensures
        ({
            let after = session::height_advertised(client, tree, advertisement, origin);
            let accepted = {
                &&& advertisement.chain_id == client.config.chain_id
                &&& origin.accepts(
                    codec::advertisement(
                        advertisement.chain_id,
                        advertisement.highest_committed_block_height,
                    ),
                    advertisement.signature,
                )
                &&& session::may_serve(tree, origin)
                &&& forall|i: int|
                    0 <= i < client.blacklist.len() ==> (#[trigger] client.blacklist[i]).key
                        != origin
            };
            &&& !accepted ==> after == client
            &&& accepted ==> {
                &&& after == (ClientView { servers: after.servers, ..client })
                &&& after.servers.len() > 0
                &&& after.servers.last() == (SyncServer {
                    key: origin,
                    height: advertisement.highest_committed_block_height,
                })
                &&& after.servers.drop_last() == client.servers.filter(
                    |server: SyncServer| server.key != origin,
                )
            }
        }),
{
    let after = session::height_advertised(client, tree, advertisement, origin);
    let others = client.servers.filter(session::is_other_server(origin));
    assert(others.push(
        SyncServer { key: origin, height: advertisement.highest_committed_block_height },
    ).drop_last() =~= others);
    assert(session::is_other_server(origin) =~= (|server: SyncServer| server.key != origin));
}

/// An advertised certificate calls for a session exactly if it is correct, at least as far ahead of
/// the highest certificate as configured, and comes from a peer that is not shunned.
pub proof fn law_certificates_far_ahead_call_for_a_session(
    run: SyncRun,
    pc: PhaseCertificate,
    origin: VerifyingKey,
)
    ensures
        session::calls_for_sync(run, pc, origin) <==> ({
            &&& certificates::pc_correct(run.tree, pc)
            &&& pc.view.0 >= (run.tree.highest_pc->0).view.0
                + run.client.config.block_sync_trigger_min_view_difference
            &&& forall|i: int|
                0 <= i < run.client.blacklist.len() ==> (#[trigger] run.client.blacklist[i]).key
                    != origin
        }),
{
}

/// The blocks that the peer of a session brings are put behind those that wait to be looked at, in
/// their order, with the certificate that it reports. What another peer brings is ignored, and so is
/// everything while nothing was asked for.
pub proof fn law_fetched_blocks_come_from_the_session_peer(
    run: SyncRun,
    peer: VerifyingKey,
    blocks: Vec<Block>,
    highest_pc: PhaseCertificate,
    now: u64,
)
    requires
        run.client.session is Some,
    ensures
        ({
            let s = run.client.session->0;
            let after = session::worker_polled(
                run,
                WorkerPoll::Report(SyncResult::Blocks { peer, blocks, highest_pc }),
                now,
            );
            if s.awaiting_fetch && s.peer == peer {
                &&& after.client.session is Some
                &&& (after.client.session->0).pending_blocks == s.pending_blocks + blocks@
                &&& (after.client.session->0).highest_pc == Some(highest_pc)
                &&& !(after.client.session->0).awaiting_fetch
                &&& after.done == run.done
            } else {
                after == run
            }
        }),
{
}

/// A peer that fails a session, or has no blocks for it, ends it; a worker that is gone ends it, too.
pub proof fn law_failed_fetches_end_the_session(run: SyncRun, poll: WorkerPoll, now: u64)
    requires
        run.client.session is Some,
        (run.client.session->0).awaiting_fetch,
        poll is Disconnected || poll == WorkerPoll::Report(
            SyncResult::Empty { peer: (run.client.session->0).peer },
        ) || poll == WorkerPoll::Report(
            SyncResult::Error { peer: (run.client.session->0).peer },
        ),
    ensures
        session::worker_polled(run, poll, now).client.session is None,
        session::worker_polled(run, poll, now).tree == run.tree,
{
    let peer = (run.client.session->0).peer;
    lemma_session_ended(run, now);
    lemma_session_ended(
        session::client_now(run, session::shunned(run.client, peer, now)),
        now,
    );
}

/// Shunned peers are forgiven from the front of the list, as long as their time is over; the others
/// stay shunned.
pub proof fn law_shunned_peers_are_forgiven_in_time(blacklist: Seq<Shunned>, now: u64)
    ensures
        ({
            let after = session::forgiven(blacklist, now);
            let n = blacklist.len() - after.len();
            &&& n >= 0
            &&& after == blacklist.skip(n)
            &&& forall|i: int| 0 <= i < n ==> (#[trigger] blacklist[i]).until <= now
            &&& after.len() > 0 ==> after[0].until > now
        }),
    decreases blacklist.len(),
{
    if blacklist.len() > 0 && blacklist[0].until <= now {
        let rest = blacklist.skip(1);
        law_shunned_peers_are_forgiven_in_time(rest, now);
        let after = session::forgiven(blacklist, now);
        let n = blacklist.len() - after.len();
        assert(rest.skip(n - 1) =~= blacklist.skip(n));
        assert forall|i: int| 0 <= i < n implies (#[trigger] blacklist[i]).until <= now by {
            if i > 0 {
                assert(rest[i - 1] == blacklist[i]);
            }
        }
    } else {
        assert(blacklist.skip(0) =~= blacklist);
    }
}

/// A session is never due while one is in progress. Otherwise it is due once nothing was committed
/// for the configured time, stretched after fruitless sessions; once a failed search for a peer is to
/// be repeated; and once there is a gap and it is time to try to fill it.
pub proof fn law_when_a_session_is_due(run: SyncRun, now: u64)
    ensures
        run.client.session is Some ==> !session::is_sync_due(run, now),
        run.client.session is None && now - run.client.last_progress
            >= run.client.config.block_sync_trigger_timeout * policy::backoff(run.client.futile)
            ==> session::is_sync_due(run, now),
        run.client.session is None && run.client.no_server_retry_at is Some && now
            >= run.client.no_server_retry_at->0 ==> session::is_sync_due(run, now),
        run.client.session is None && run.client.next_backfill_at is None && session::sync_start(
            run.client,
            run.tree,
        ).1 ==> session::is_sync_due(run, now),
        run.client.config.block_sync_trigger_timeout > 0 && now == run.client.last_progress
            && run.client.no_server_retry_at is None && !session::sync_start(
            run.client,
            run.tree,
        ).1 ==> !session::is_sync_due(run, now),
{
    let timeout = run.client.config.block_sync_trigger_timeout as int;
    let factor = policy::backoff(run.client.futile) as int;
    assert(timeout > 0 ==> timeout * factor > 0) by (nonlinear_arith)
        requires
            factor >= 1,
    ;
    assert(timeout * factor >= 0) by (nonlinear_arith)
        requires
            timeout >= 0,
            factor >= 1,
    ;
}

/// A scan notes a height as reached without a gap only if every height that it looked at up to there
/// has a committed block.
pub proof fn law_scans_pass_over_no_gap(client: ClientView, tree: TreeView, height: u64)
    requires
        session::scanned(client, tree).contiguous is Some,
        session::scanned(client, tree).contiguous != client.contiguous,
        session::scan_start(client, tree) <= height <= (
        session::scanned(client, tree).contiguous->0).0,
    ensures
        tree.block_at_height.contains_key(BlockHeight(height)),
        tree::committed_height(tree) is Some,
        (session::scanned(client, tree).contiguous->0).0 <= (tree::committed_height(tree)->0).0,
{
    let top = (tree::committed_height(tree)->0).0 as int;
    lemma_lowest_gap(tree, session::scan_start(client, tree) as int, top);
}

/// A session that ends without a block counts as fruitless; one that brought blocks clears the count.
/// A session that was to fill a gap and brought nothing is followed by another attempt only after a
/// while.
pub proof fn law_fruitless_sessions_are_counted(run: SyncRun, now: u64)
    requires
        run.client.session is Some,
    ensures
        ({
            let s = run.client.session->0;
            let after = session::session_ended(run, now).client;
            &&& after.session is None
            &&& s.blocks_synced > 0 ==> after.futile == 0 && after.no_progress == 0
                && after.next_backfill_at is None && after.no_server_retry_at is None
            &&& s.blocks_synced == 0 && run.client.futile < u32::MAX ==> after.futile
                == run.client.futile + 1
            &&& s.blocks_synced == 0 && s.is_backfill && now < u64::MAX ==> (
            after.next_backfill_at is Some && after.next_backfill_at->0 > now)
        }),
{
}

/// As time passes, a change of the committed frontier counts as progress: the time is noted, and
/// fruitless sessions are forgotten. Without one neither changes. The highest view that was seen
/// never falls.
pub proof fn law_commits_count_as_progress(run: SyncRun, now: u64)
    ensures
        ({
            let committed = tree::committed_height(run.tree);
            let after = session::time_noted(run, now).client;
            &&& committed != run.client.last_committed ==> after.last_progress == now
                && after.futile == 0 && after.last_committed == committed
            &&& committed == run.client.last_committed ==> after.last_progress
                == run.client.last_progress && after.futile == run.client.futile
            &&& after.highest_pc_view.0 >= run.client.highest_pc_view.0
            &&& after.highest_pc_view.0 >= (run.tree.highest_pc->0).view.0
            &&& after.session == run.client.session
            &&& after.servers == run.client.servers
        }),
{
}

/// A committed validator may serve. So may a replica that a block under the committed frontier is
/// about to make a validator.
pub proof fn law_validators_to_be_may_serve(
    tree: TreeView,
    key: VerifyingKey,
    block: CryptoHash,
    updates: ValidatorSetUpdates,
)
    requires
        tree.highest_committed_block is Some,
        commit::branch_of(tree, tree.highest_committed_block->0).len() < u64::MAX,
    ensures
        validator_set::power_of(tree.committed_validators->0, key) is Some ==> session::may_serve(
            tree,
            key,
        ),
        commit::is_under(tree.children, tree.highest_committed_block->0, block)
            && tree.validator_set_updates.contains_key(block) && tree.validator_set_updates[block]
            == ValidatorSetUpdatesStatus::Pending(updates) && validator_set::power_of(
            updates.inserts@,
            key,
        ) is Some ==> session::may_serve(tree, key),
        session::may_serve(tree, key) && validator_set::power_of(
            tree.committed_validators->0,
            key,
        ) is None ==> exists|b: CryptoHash| #[trigger]
            commit::is_under(tree.children, tree.highest_committed_block->0, b)
                && tree.validator_set_updates.contains_key(b) && (
            tree.validator_set_updates[b] matches ValidatorSetUpdatesStatus::Pending(u)
                && validator_set::power_of(u.inserts@, key) is Some),
{
    let root = tree.highest_committed_block->0;
    let branch = commit::branch_of(tree, root);
    commit_laws::law_a_branch_is_what_lies_under_its_root(tree, root);
    if commit::is_under(tree.children, root, block) {
        assert(branch.contains(block));
        let i = choose|i: int| 0 <= i < branch.len() && branch[i] == block;
        assert(branch[i] == block);
    }
    if session::branch_makes_validator(tree, root, key) {
        let i = choose|i: int|
            0 <= i < branch.len() && session::makes_validator(tree, #[trigger] branch[i], key);
        assert(branch.contains(branch[i]));
        assert(commit::is_under(tree.children, root, branch[i]));
    }
}

/// After a session was started on a call for it, whoever called, one is in progress: with one of the
/// peers that can serve, if there is any.
pub proof fn law_calls_for_a_session_are_answered(run: SyncRun, now: u64, end: SyncRun)
    requires
        session::triggers_sync(run, now, end),
        run.client.session is None,
    ensures
        session::candidates(run).len() > 0 ==> end.client.session is Some
            && session::candidates(run).contains((end.client.session->0).peer)
            && end.client.last_progress == now,
        session::candidates(run).len() == 0 ==> end.client.session is None && end.done == run.done,
{
    let (after, outcome) = choose|after: SyncRun, outcome: RequestOutcome| #[trigger]
        session::requests_session(run, now, after, outcome) && end == (
        if outcome == RequestOutcome::Started {
            session::client_now(after, ClientView { last_progress: now, ..after.client })
        } else {
            after
        });
    let choice = choose|choice: Option<VerifyingKey>| #[trigger]
        session::is_choice(session::candidates(run), choice) && (after, outcome)
            == session::session_requested(run, choice, now);
    if session::candidates(run).len() > 0 {
        assert(choice is Some);
    } else {
        if let Some(key) = choice {
            assert(session::candidates(run).contains(key));
        }
    }
}

/// As time passes, a session starts exactly if one is due and a peer can serve; where none is due,
/// nothing is done. After an attempt the next one to fill a gap waits for a while.
pub proof fn law_sessions_start_when_due(run: SyncRun, now: u64, end: SyncRun)
    requires
        session::sync_ticks(run, now, end),
        run.client.session is None,
    ensures
        ({
            let noted = session::time_noted(run, now);
            let is_due = session::is_sync_due(noted, now);
            &&& !is_due ==> end.client.session is None && end.done == run.done && end.tree
                == run.tree
            &&& is_due && session::candidates(run).len() > 0 ==> {
                &&& end.client.session is Some
                &&& session::candidates(run).contains((end.client.session->0).peer)
                &&& end.client.last_progress == now
                &&& end.done.len() == run.done.len() + 2
            }
            &&& is_due && session::candidates(run).len() == 0 ==> end.client.session is None
                && end.done == run.done
            &&& is_due && now < u64::MAX ==> end.client.next_backfill_at is Some && (
            end.client.next_backfill_at->0) > now
        }),
{
    let noted = session::time_noted(run, now);
    let looked = session::looked_for_gap(noted, now);
    assert(session::candidates(looked) == session::candidates(run));
    if session::is_sync_due(noted, now) {
        let (after, outcome) = choose|after: SyncRun, outcome: RequestOutcome| #[trigger]
            session::requests_session(looked, now, after, outcome) && end == session::cadence_set(
                after,
                outcome,
                now,
            );
        let choice = choose|choice: Option<VerifyingKey>| #[trigger]
            session::is_choice(session::candidates(looked), choice) && (after, outcome)
                == session::session_requested(looked, choice, now);
        if session::candidates(looked).len() == 0 {
            if let Some(key) = choice {
                assert(session::candidates(looked).contains(key));
            }
        }
    }
}

} // verus!

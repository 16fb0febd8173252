//! Asking peers for blocks by hash, and asking again.

use vstd::prelude::*;

use crate::block_tree::store;
use crate::block_tree::store::TreeView;
use crate::block_tree::tree;
use crate::block_tree::tree::BlockTreeSingleton;
use crate::effects::{Deed, Effect};
use crate::hotstuff::bodies;
use crate::hotstuff::bodies::find_block;
use crate::hotstuff::messages::{BlockDataRequest, ProposalHeader};
use crate::hotstuff::proposing;
use crate::hotstuff::proposing::other_validators;
use crate::hotstuff::state;
use crate::hotstuff::state::{is_fetched, Fetch, HotStuff, HotStuffError, HsView, Run};
use crate::types::block::Block;
use crate::types::data_types::{CryptoHash, Power, VerifyingKey, ViewNumber};
use crate::types::validator_set::ValidatorSet;

verus! {

/// How long to wait for a body before asking again, in milliseconds.
pub const BODY_RETRY_INTERVAL: u64 = 300;

/// How often to ask again for a body.
pub const MAX_BODY_RETRIES: u8 = 3;

/// How often to look for the block of the highest certificate, in milliseconds.
pub const MISSING_PC_CHECK_INTERVAL: u64 = 1000;

/// The deed of asking a peer for a body.
pub open spec fn requested(peer: VerifyingKey, request: BlockDataRequest) -> Seq<Deed> {
    seq![Deed::Other(Effect::RequestBlockData(peer, request))]
}

/// A block asked for by hash because a certificate names it.
pub open spec fn justify_requested(
    run: Run,
    hash: CryptoHash,
    view: ViewNumber,
    peer: VerifyingKey,
    now: u64,
) -> Run {
    let asked = state::did(
        run,
        requested(peer, BlockDataRequest { chain_id: run.hs.chain_id, view, block_hash: hash }),
    );
    state::now_holding(
        asked,
        HsView {
            justify_fetches: run.hs.justify_fetches.push(
                Fetch { hash, view, last_request: now, retries: 0, origin: peer },
            ),
            ..run.hs
        },
    )
}

/// Whether a block is being asked for.
pub open spec fn is_asked_for(hs: HsView, hash: CryptoHash) -> bool {
    state::fetches_block(hs.body_fetches, hash) || state::fetches_block(hs.justify_fetches, hash)
}

/// The keys but `origin`.
pub open spec fn keys_but(keys: Seq<VerifyingKey>, origin: VerifyingKey) -> Seq<VerifyingKey>
    decreases keys.len(),
{
    if keys.len() == 0 {
        Seq::empty()
    } else {
        let before = keys_but(keys.drop_last(), origin);
        if keys.last() == origin {
            before
        } else {
            before.push(keys.last())
        }
    }
}

/// Whom to ask again for a body: first who announced it, then the other validators in turn.
pub open spec fn retry_peer(
    validators: Seq<(VerifyingKey, Power)>,
    me: VerifyingKey,
    fetch: Fetch,
) -> VerifyingKey {
    let peers = keys_but(proposing::others(validators, me), fetch.origin);
    if fetch.retries == 0 || peers.len() == 0 {
        fetch.origin
    } else {
        peers[(fetch.retries - 1) % peers.len() as int]
    }
}

/// Whether it is time to ask again for a body.
pub open spec fn is_stale(fetch: Fetch, now: u64) -> bool {
    now - fetch.last_request >= BODY_RETRY_INTERVAL
}

/// The request for a body: by the header that announced it, or by the hash alone.
pub open spec fn request_for(
    hs: HsView,
    fetch: Fetch,
    by_header: bool,
) -> Option<BlockDataRequest> {
    if !by_header {
        Some(
            BlockDataRequest { chain_id: hs.chain_id, view: fetch.view, block_hash: fetch.hash },
        )
    } else if hs.pending_headers.contains_key(fetch.hash) {
        let header = hs.pending_headers[fetch.hash];
        Some(
            BlockDataRequest {
                chain_id: header.chain_id,
                view: header.view,
                block_hash: header.block_hash,
            },
        )
    } else {
        None
    }
}

/// What becomes of fetches as time passes.
pub struct Ticked {
    pub kept: Seq<Fetch>,
    pub deeds: Seq<Deed>,
    pub expired: Seq<CryptoHash>,
}

/// What becomes of `fetches` at the time `now`: those that wait too long are asked for again, and
/// given up after some retries.
pub open spec fn ticked(
    hs: HsView,
    validators: Seq<(VerifyingKey, Power)>,
    fetches: Seq<Fetch>,
    now: u64,
    by_header: bool,
) -> Ticked
    decreases fetches.len(),
{
    if fetches.len() == 0 {
        Ticked { kept: Seq::empty(), deeds: Seq::empty(), expired: Seq::empty() }
    } else {
        let before = ticked(hs, validators, fetches.drop_last(), now, by_header);
        let fetch = fetches.last();
        if !is_stale(fetch, now) {
            Ticked { kept: before.kept.push(fetch), ..before }
        } else {
            match request_for(hs, fetch, by_header) {
                Some(request) => if fetch.retries < MAX_BODY_RETRIES {
                    Ticked {
                        kept: before.kept.push(
                            Fetch {
                                last_request: now,
                                retries: (fetch.retries + 1) as u8,
                                ..fetch
                            },
                        ),
                        deeds: before.deeds + requested(
                            retry_peer(validators, hs.keypair.public_key(), fetch),
                            request,
                        ),
                        ..before
                    }
                } else {
                    Ticked { expired: before.expired.push(fetch.hash), ..before }
                },
                None => Ticked { expired: before.expired.push(fetch.hash), ..before },
            }
        }
    }
}

/// `headers` without those of `hashes`.
pub open spec fn headers_without(
    headers: Map<CryptoHash, ProposalHeader>,
    hashes: Seq<CryptoHash>,
) -> Map<CryptoHash, ProposalHeader>
    decreases hashes.len(),
{
    if hashes.len() == 0 {
        headers
    } else {
        headers_without(headers, hashes.drop_last()).remove(hashes.last())
    }
}

/// Time passing for the bodies that were asked for.
pub open spec fn bodies_ticked(run: Run, now: u64) -> Run {
    let outcome = ticked(
        run.hs,
        tree::validators_of(run.tree).committed,
        run.hs.body_fetches,
        now,
        true,
    );
    state::now_holding(
        state::did(run, outcome.deeds),
        HsView {
            body_fetches: outcome.kept,
            pending_headers: headers_without(run.hs.pending_headers, outcome.expired),
            sync_needed: run.hs.sync_needed || outcome.expired.len() > 0,
            ..run.hs
        },
    )
}

/// Time passing for the blocks that were asked for because a certificate names them.
pub open spec fn justifies_ticked(run: Run, now: u64) -> Run {
    let outcome = ticked(
        run.hs,
        tree::validators_of(run.tree).committed,
        run.hs.justify_fetches,
        now,
        false,
    );
    state::now_holding(
        state::did(run, outcome.deeds),
        HsView {
            justify_fetches: outcome.kept,
            sync_needed: run.hs.sync_needed || outcome.expired.len() > 0,
            ..run.hs
        },
    )
}

/// The block to ask for so that `hash` can be taken in: itself, or, where its body waits for its
/// parent, the first ancestor that is missing.
pub open spec fn wanted_block(
    tree: TreeView,
    deferred: Seq<Block>,
    hash: CryptoHash,
    limit: nat,
) -> Option<CryptoHash>
    decreases limit,
{
    if tree.blocks.contains_key(hash) || limit == 0 {
        None
    } else {
        match bodies::block_among(deferred, hash) {
            None => Some(hash),
            Some(block) => if block.justify.is_genesis() {
                None
            } else {
                wanted_block(tree, deferred, block.justify.block, (limit - 1) as nat)
            },
        }
    }
}

/// The block that the participant lacks to follow its highest certificate, if that certificate is
/// of the current view or the one before.
pub open spec fn lacking_block(run: Run) -> Option<CryptoHash> {
    let pc = run.tree.highest_pc->0;
    if pc.is_genesis() || pc.view.0 + 1 < run.hs.view_info.view.0 {
        None
    } else {
        wanted_block(
            run.tree,
            run.hs.deferred_bodies,
            pc.block,
            run.hs.deferred_bodies.len() + 1,
        )
    }
}

/// The time of the next look for the block of the highest certificate.
pub open spec fn next_check(now: u64) -> u64 {
    if now <= u64::MAX - MISSING_PC_CHECK_INTERVAL {
        (now + MISSING_PC_CHECK_INTERVAL) as u64
    } else {
        u64::MAX
    }
}

/// A look for the block of the highest certificate, when it is time: a block that is lacking and
/// not asked for yet is asked for.
pub open spec fn missing_pc_checked(run: Run, now: u64) -> Run {
    if now < run.hs.pc_check_at {
        run
    } else {
        let looked = state::now_holding(run, HsView { pc_check_at: next_check(now), ..run.hs });
        let peers = proposing::others(tree::validators_of(run.tree).committed, run.hs.keypair.public_key());
        match lacking_block(run) {
            Some(hash) => if is_asked_for(run.hs, hash) || peers.len() == 0 {
                looked
            } else {
                justify_requested(looked, hash, (run.tree.highest_pc->0).view, peers[0], now)
            },
            None => looked,
        }
    }
}

fn other_keys(keys: &Vec<VerifyingKey>, origin: &VerifyingKey) -> (r: Vec<VerifyingKey>)
    ensures
        r@ == keys_but(keys@, *origin),
{
    let mut r: Vec<VerifyingKey> = Vec::new();
    let mut i: usize = 0;
    assert(keys@.take(0) =~= Seq::<VerifyingKey>::empty());
    while i < keys.len()
        invariant
            i <= keys@.len(),
            r@ == keys_but(keys@.take(i as int), *origin),
        decreases keys@.len() - i,
    {
        assert(keys@.take(i + 1).drop_last() =~= keys@.take(i as int));
        if keys[i] != *origin {
            r.push(keys[i]);
        }
        i = i + 1;
    }
    assert(keys@.take(i as int) =~= keys@);
    r
}

fn choose_retry_peer(validators: &ValidatorSet, me: &VerifyingKey, fetch: &Fetch) -> (r:
    VerifyingKey)
    ensures
        r == retry_peer(validators@, *me, *fetch),
{
    let all = other_validators(validators, me);
    let peers = other_keys(&all, &fetch.origin);
    if fetch.retries == 0 || peers.len() == 0 {
        fetch.origin
    } else {
        peers[(fetch.retries - 1) as usize % peers.len()]
    }
}

impl HotStuff {
    /// Ask a peer for a block because a certificate names it.
    pub(crate) fn request_justify(
        &mut self,
        hash: CryptoHash,
        view: ViewNumber,
        peer: VerifyingKey,
        now: u64,
        block_tree: &mut BlockTreeSingleton,
        Ghost(start): Ghost<BlockTreeSingleton>,
        Ghost(run): Ghost<Run>,
    )
        requires
            state::reached(start, *old(self), *old(block_tree), run),
        ensures
            state::reached(
                start,
                *final(self),
                *final(block_tree),
                justify_requested(run, hash, view, peer, now),
            ),
            tree::initialized(run.tree) ==> tree::initialized(
                justify_requested(run, hash, view, peer, now).tree,
            ),
    {
        let request = BlockDataRequest { chain_id: self.config.chain_id, view, block_hash: hash };
        let ghost before = *block_tree;
        block_tree.emit(Effect::RequestBlockData(peer, request));
        proof {
            state::lemma_did(start, *self, before, *block_tree, run, requested(peer, request));
        }
        self.justify_fetches.push(
            Fetch { hash, view, last_request: now, retries: 0, origin: peer },
        );
    }

    fn make_request(&self, fetch: &Fetch, by_header: bool) -> (r: Option<BlockDataRequest>)
        ensures
            r == request_for(self@, *fetch, by_header),
    {
        if !by_header {
            return Some(
                BlockDataRequest {
                    chain_id: self.config.chain_id,
                    view: fetch.view,
                    block_hash: fetch.hash,
                },
            );
        }
        match self.pending_headers.get(&fetch.hash) {
            Some(header) => Some(
                BlockDataRequest {
                    chain_id: header.chain_id,
                    view: header.view,
                    block_hash: header.block_hash,
                },
            ),
            None => None,
        }
    }

    fn tick_fetches(
        &self,
        fetches: &Vec<Fetch>,
        now: u64,
        by_header: bool,
        block_tree: &mut BlockTreeSingleton,
    ) -> (r: (Vec<Fetch>, Vec<CryptoHash>))
        requires
            tree::initialized(old(block_tree)@),
        ensures
            ({
                let outcome = ticked(
                    self@,
                    tree::validators_of(old(block_tree)@).committed,
                    fetches@,
                    now,
                    by_header,
                );
                &&& r.0@ == outcome.kept
                &&& r.1@ == outcome.expired
                &&& tree::advanced(*old(block_tree), *final(block_tree), outcome.deeds)
            }),
            final(block_tree).gap_watch == old(block_tree).gap_watch,
    {
        let validators = match block_tree.committed_validator_set() {
            Ok(validators) => validators,
            Err(_) => ValidatorSet::new(),
        };
        let me = self.config.keypair.public();
        let mut kept: Vec<Fetch> = Vec::new();
        let mut expired: Vec<CryptoHash> = Vec::new();
        let mut i: usize = 0;
        proof {
            assert(fetches@.take(0) =~= Seq::<Fetch>::empty());
            tree::lemma_advanced_refl(*block_tree);
        }
        while i < fetches.len()
            invariant
                i <= fetches@.len(),
                me == self@.keypair.public_key(),
                ({
                    let outcome = ticked(
                        self@,
                        validators@,
                        fetches@.take(i as int),
                        now,
                        by_header,
                    );
                    &&& kept@ == outcome.kept
                    &&& expired@ == outcome.expired
                    &&& tree::advanced(*old(block_tree), *block_tree, outcome.deeds)
                }),
                block_tree.gap_watch == old(block_tree).gap_watch,
            decreases fetches@.len() - i,
        {
            let ghost so_far = ticked(
                self@,
                validators@,
                fetches@.take(i as int),
                now,
                by_header,
            );
            assert(fetches@.take(i + 1).drop_last() =~= fetches@.take(i as int));
            let ghost before = *block_tree;
            let fetch = fetches[i];
            if now < fetch.last_request || now - fetch.last_request < BODY_RETRY_INTERVAL {
                kept.push(fetch);
            } else {
                match self.make_request(&fetch, by_header) {
                    Some(request) => {
                        if fetch.retries < MAX_BODY_RETRIES {
                            let peer = choose_retry_peer(&validators, &me, &fetch);
                            block_tree.emit(Effect::RequestBlockData(peer, request));
                            proof {
                                tree::lemma_advanced_trans(
                                    *old(block_tree),
                                    before,
                                    *block_tree,
                                    so_far.deeds,
                                    requested(peer, request),
                                );
                            }
                            kept.push(
                                Fetch { last_request: now, retries: fetch.retries + 1, ..fetch },
                            );
                        } else {
                            expired.push(fetch.hash);
                        }
                    },
                    None => {
                        expired.push(fetch.hash);
                    },
                }
            }
            i = i + 1;
        }
        assert(fetches@.take(i as int) =~= fetches@);
        (kept, expired)
    }

    fn forget_headers(&mut self, hashes: &Vec<CryptoHash>)
        requires
            old(self).wf(),
        ensures
            final(self).wf(),
            final(self)@ == (HsView {
                pending_headers: headers_without(old(self)@.pending_headers, hashes@),
                ..old(self)@
            }),
    {
        let mut i: usize = 0;
        assert(hashes@.take(0) =~= Seq::<CryptoHash>::empty());
        while i < hashes.len()
            invariant
                i <= hashes@.len(),
                self.wf(),
                self@ == (HsView {
                    pending_headers: headers_without(
                        old(self)@.pending_headers,
                        hashes@.take(i as int),
                    ),
                    ..old(self)@
                }),
            decreases hashes@.len() - i,
        {
            assert(hashes@.take(i + 1).drop_last() =~= hashes@.take(i as int));
            let _ = self.pending_headers.remove(&hashes[i]);
            i = i + 1;
        }
        assert(hashes@.take(i as int) =~= hashes@);
    }

    /// Ask again for the bodies that have not arrived, and give up on those that were asked for too
    /// often.
    pub fn tick_pending_body_retries(&mut self, now: u64, block_tree: &mut BlockTreeSingleton)
        requires
            old(self).wf(),
            tree::initialized(old(block_tree)@),
        ensures
            state::reached(
                *old(block_tree),
                *final(self),
                *final(block_tree),
                bodies_ticked(state::begin(*old(self), *old(block_tree)), now),
            ),
            tree::initialized(final(block_tree)@),
    {
        let ghost run = state::begin(*self, *block_tree);
        let ghost start = *block_tree;
        proof {
            state::lemma_begin(*self, *block_tree);
        }
        let (kept, expired) = self.tick_fetches(&self.body_fetches, now, true, block_tree);
        proof {
            let outcome = ticked(
                run.hs,
                tree::validators_of(run.tree).committed,
                run.hs.body_fetches,
                now,
                true,
            );
            state::lemma_did(start, *self, start, *block_tree, run, outcome.deeds);
        }
        self.body_fetches = kept;
        self.forget_headers(&expired);
        if expired.len() > 0 {
            self.sync_needed = true;
        }
    }

    /// Ask again for the blocks that certificates name, and give up on those that were asked for
    /// too often.
    pub fn tick_justify_fetch_retries(&mut self, now: u64, block_tree: &mut BlockTreeSingleton)
        requires
            old(self).wf(),
            tree::initialized(old(block_tree)@),
        ensures
            state::reached(
                *old(block_tree),
                *final(self),
                *final(block_tree),
                justifies_ticked(state::begin(*old(self), *old(block_tree)), now),
            ),
            tree::initialized(final(block_tree)@),
    {
        let ghost run = state::begin(*self, *block_tree);
        let ghost start = *block_tree;
        proof {
            state::lemma_begin(*self, *block_tree);
        }
        let (kept, expired) = self.tick_fetches(&self.justify_fetches, now, false, block_tree);
        proof {
            let outcome = ticked(
                run.hs,
                tree::validators_of(run.tree).committed,
                run.hs.justify_fetches,
                now,
                false,
            );
            state::lemma_did(start, *self, start, *block_tree, run, outcome.deeds);
        }
        self.justify_fetches = kept;
        if expired.len() > 0 {
            self.sync_needed = true;
        }
    }

    fn find_wanted_block(&self, hash: CryptoHash, block_tree: &BlockTreeSingleton) -> (r: Option<
        CryptoHash,
    >)
        requires
            store::readable(block_tree@),
        ensures
            r == wanted_block(
                block_tree@,
                self@.deferred_bodies,
                hash,
                self@.deferred_bodies.len() + 1,
            ),
    {
        let mut current = hash;
        let mut left: u128 = self.deferred_bodies.len() as u128 + 1;
        loop
            invariant
                store::readable(block_tree@),
                wanted_block(block_tree@, self@.deferred_bodies, current, left as nat)
                    == wanted_block(
                    block_tree@,
                    self@.deferred_bodies,
                    hash,
                    self@.deferred_bodies.len() + 1,
                ),
            decreases left,
        {
            if block_tree.contains(&current) || left == 0 {
                return None;
            }
            match find_block(&self.deferred_bodies, &current) {
                None => {
                    return Some(current);
                },
                Some(block) => {
                    if block.justify.is_genesis_pc() {
                        return None;
                    }
                    current = block.justify.block;
                    left = left - 1;
                },
            }
        }
    }

    /// From time to time, ask for the block of the highest certificate if the replica lacks it.
    pub fn tick_missing_pc_block_fetch(
        &mut self,
        now: u64,
        block_tree: &mut BlockTreeSingleton,
    ) -> (r: Result<(), HotStuffError>)
        requires
            old(self).wf(),
            tree::initialized(old(block_tree)@),
        ensures
            r is Ok,
            state::reached(
                *old(block_tree),
                *final(self),
                *final(block_tree),
                missing_pc_checked(state::begin(*old(self), *old(block_tree)), now),
            ),
            tree::initialized(final(block_tree)@),
    {
        let ghost run = state::begin(*self, *block_tree);
        let ghost start = *block_tree;
        proof {
            state::lemma_begin(*self, *block_tree);
        }
        if now < self.missing_pc_check_at {
            return Ok(());
        }
        self.missing_pc_check_at = if now <= u64::MAX - MISSING_PC_CHECK_INTERVAL {
            now + MISSING_PC_CHECK_INTERVAL
        } else {
            u64::MAX
        };
        let ghost looked = state::now_holding(run, HsView { pc_check_at: next_check(now), ..run.hs });
        let pc = match block_tree.highest_pc() {
            Ok(pc) => pc,
            Err(e) => {
                return Err(HotStuffError::BlockTreeError(e));
            },
        };
        if pc.is_genesis_pc() || (pc.view.0 < u64::MAX && pc.view.0 + 1 < self.view_info.view.0) {
            return Ok(());
        }
        match self.find_wanted_block(pc.block, block_tree) {
            Some(hash) => {
                let validators = match block_tree.committed_validator_set() {
                    Ok(validators) => validators,
                    Err(e) => {
                        return Err(HotStuffError::BlockTreeError(e));
                    },
                };
                let peers = other_validators(&validators, &self.config.keypair.public());
                if !is_fetched(&self.body_fetches, &hash) && !is_fetched(
                    &self.justify_fetches,
                    &hash,
                ) && peers.len() > 0 {
                    self.request_justify(
                        hash,
                        pc.view,
                        peers[0],
                        now,
                        block_tree,
                        Ghost(start),
                        Ghost(looked),
                    );
                }
            },
            None => {},
        }
        Ok(())
    }
}

} // verus!

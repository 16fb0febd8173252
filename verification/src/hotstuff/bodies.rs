//! Block bodies: taking them in when they arrive, keeping them while they cannot be taken in, and
//! asking for them again.

use vstd::prelude::*;

use crate::app::{App, ValidateBlockRequest, ValidateBlockResponse};
use crate::block_tree::app_view;
use crate::block_tree::errors::BlockTreeError;
use crate::block_tree::store;
use crate::block_tree::store::TreeView;
use crate::block_tree::tree;
use crate::block_tree::tree::BlockTreeSingleton;
use crate::effects::Effect;
use crate::hotstuff::acting;
use crate::hotstuff::acting::is_block_missing;
use crate::hotstuff::body_push;
use crate::hotstuff::body_push::{body_len, BODY_PUSH_HARD_CAP_BYTES, PUSHED_BODY_BUFFER_CAP};
use crate::hotstuff::messages::{BlockDataRequest, BlockDataResponse, HotStuffMessage};
use crate::hotstuff::state;
use crate::hotstuff::state::{
    is_fetched, is_held, without_block, without_fetch, HotStuff, HotStuffError, HsView, Run,
};
use crate::hotstuff::voting;
use crate::roles::Roles;
use crate::types::block::Block;
use crate::types::data_types::{contains_hash, CryptoHash, VerifyingKey};

verus! {

/// Whether the parent of `block` is not in the tree.
pub open spec fn lacks_parent(tree: TreeView, block: Block) -> bool {
    !block.justify.is_genesis() && !tree.blocks.contains_key(block.justify.block)
}

/// What follows the application's verdict on a body, and whether the block was taken in.
pub open spec fn body_settled<R: Roles>(
    run: Run,
    roles: R,
    block: Block,
    response: ValidateBlockResponse,
) -> (Run, bool) {
    match response {
        ValidateBlockResponse::Valid { app_state_updates, validator_set_updates } => {
            let (after, error) = acting::taken_in(
                run,
                roles,
                block,
                app_state_updates,
                validator_set_updates,
            );
            (
                state::now_holding(
                    after,
                    HsView {
                        sync_needed: after.hs.sync_needed || acting::misses_block(error),
                        ..after.hs
                    },
                ),
                true,
            )
        },
        ValidateBlockResponse::Invalid => if run.hs.header_voted.contains(block.hash)
            && !run.hs.invalid_votes.contains(block.hash) {
            (
                state::now_holding(
                    run,
                    HsView {
                        invalid_votes: run.hs.invalid_votes.push(block.hash),
                        ..run.hs
                    },
                ),
                false,
            )
        } else {
            (run, false)
        },
        ValidateBlockResponse::MissingData => (run, false),
    }
}

/// A body tried: it is put before the application if its parent is in the tree.
pub open spec fn body_tried<R: Roles>(
    run: Run,
    roles: R,
    block: Block,
    response: ValidateBlockResponse,
) -> (Run, bool) {
    if lacks_parent(run.tree, block) {
        (run, false)
    } else {
        body_settled(run, roles, block, response)
    }
}

/// Nothing more to be done about a block that was taken in.
pub open spec fn body_done(run: Run, hash: CryptoHash) -> Run {
    state::now_holding(
        run,
        HsView {
            pending_headers: run.hs.pending_headers.remove(hash),
            body_fetches: run.hs.body_fetches.filter(state::fetches_other(hash)),
            justify_fetches: run.hs.justify_fetches.filter(state::fetches_other(hash)),
            ..run.hs
        },
    )
}

/// A body put off.
pub open spec fn body_put_off(run: Run, block: Block) -> Run {
    state::now_holding(
        run,
        HsView {
            body_fetches: run.hs.body_fetches.filter(state::fetches_other(block.hash)),
            justify_fetches: run.hs.justify_fetches.filter(state::fetches_other(block.hash)),
            deferred_bodies: run.hs.deferred_bodies.filter(state::is_other_block(block.hash)).push(block),
            ..run.hs
        },
    )
}

/// What trying the body at the place `at` comes to: the run after it, the place to go on at, and
/// whether some were taken in.
#[verifier::opaque]
pub open spec fn drain_step<R: Roles>(
    run: Run,
    roles: R,
    at: int,
    progress: bool,
    answer: ValidateBlockResponse,
) -> (Run, int, bool) {
    let block = run.hs.deferred_bodies[at];
    let (next, is_taken_in) = body_tried(run, roles, block, answer);
    if is_taken_in {
        let shorter = state::now_holding(
            next,
            HsView { deferred_bodies: next.hs.deferred_bodies.remove(at), ..next.hs },
        );
        (body_done(shorter, block.hash), at, true)
    } else {
        (next, at + 1, progress)
    }
}

/// Whether the application's `answers`, one for each body that is tried, lead from `run` to `end`
/// when the bodies that were put off are tried in turn from the place `at` on, and again from the
/// front for as long as some were taken in.
pub open spec fn drains<R: Roles>(
    run: Run,
    roles: R,
    at: int,
    progress: bool,
    answers: Seq<ValidateBlockResponse>,
    end: Run,
) -> bool
    decreases answers.len(), (if progress { 1int } else { 0int }),
{
    if at < 0 || at >= run.hs.deferred_bodies.len() {
        if progress {
            drains(run, roles, 0, false, answers, end)
        } else {
            answers.len() == 0 && end == run
        }
    } else if answers.len() == 0 {
        false
    } else {
        let (next, place, advancing) = drain_step(run, roles, at, progress, answers[0]);
        drains(next, roles, place, advancing, answers.skip(1), end)
    }
}

/// Whether the application's `answers` lead from `run` to `end` when the body of `block` arrives:
/// it is tried, and then those that were put off are if it was taken in.
pub open spec fn body_accepted<R: Roles>(
    run: Run,
    roles: R,
    block: Block,
    answers: Seq<ValidateBlockResponse>,
    end: Run,
) -> bool {
    let (next, is_taken_in) = body_tried(run, roles, block, answers[0]);
    &&& answers.len() > 0
    &&& if is_taken_in {
        drains(body_done(next, block.hash), roles, 0, false, answers.skip(1), end)
    } else {
        answers.len() == 1 && end == body_put_off(next, block)
    }
}

/// Whether the body of a block is awaited.
pub open spec fn is_awaited(hs: HsView, hash: CryptoHash) -> bool {
    hs.pending_headers.contains_key(hash) || state::fetches_block(hs.justify_fetches, hash)
}

/// A body that came unasked, kept if it is not known, small enough and the first copy. The oldest
/// one makes place.
pub open spec fn parked(run: Run, block: Block) -> Run {
    if run.tree.blocks.contains_key(block.hash) || body_push::body_size(block.data) > BODY_PUSH_HARD_CAP_BYTES
        || state::holds_block(run.hs.pushed_bodies, block.hash) {
        run
    } else {
        let kept = if run.hs.pushed_bodies.len() >= PUSHED_BODY_BUFFER_CAP {
            run.hs.pushed_bodies.skip(1)
        } else {
            run.hs.pushed_bodies
        };
        state::now_holding(run, HsView { pushed_bodies: kept.push(block), ..run.hs })
    }
}

/// The first block of `blocks` with the hash `hash`.
pub open spec fn block_among(blocks: Seq<Block>, hash: CryptoHash) -> Option<Block>
    decreases blocks.len(),
{
    if blocks.len() == 0 {
        None
    } else {
        match block_among(blocks.drop_last(), hash) {
            Some(block) => Some(block),
            None => if blocks.last().hash == hash {
                Some(blocks.last())
            } else {
                None
            },
        }
    }
}

proof fn lemma_block_among_early(blocks: Seq<Block>, hash: CryptoHash, upto: int)
    requires
        0 <= upto <= blocks.len(),
        block_among(blocks.take(upto), hash) is Some,
    ensures
        block_among(blocks, hash) == block_among(blocks.take(upto), hash),
    decreases blocks.len() - upto,
{
    if upto < blocks.len() {
        assert(blocks.take(upto + 1).drop_last() =~= blocks.take(upto));
        lemma_block_among_early(blocks, hash, upto + 1);
    } else {
        assert(blocks.take(upto) =~= blocks);
    }
}

/// The first block of a list with the hash `hash`.
pub(crate) fn find_block(blocks: &Vec<Block>, hash: &CryptoHash) -> (r: Option<Block>)
    ensures
        r == block_among(blocks@, *hash),
{
    let mut i: usize = 0;
    assert(blocks@.take(0) =~= Seq::<Block>::empty());
    while i < blocks.len()
        invariant
            i <= blocks@.len(),
            block_among(blocks@.take(i as int), *hash) is None,
        decreases blocks@.len() - i,
    {
        assert(blocks@.take(i + 1).drop_last() =~= blocks@.take(i as int));
        if blocks[i].hash == *hash {
            proof {
                lemma_block_among_early(blocks@, *hash, i + 1);
            }
            return Some(blocks[i].clone());
        }
        i = i + 1;
    }
    assert(blocks@.take(i as int) =~= blocks@);
    None
}

/// Whether whatever drains what is left, after `answers`, drains the whole.
#[verifier::opaque]
spec fn goes_on<R: Roles>(
    run: Run,
    roles: R,
    answers: Seq<ValidateBlockResponse>,
    current: Run,
    at: int,
    progress: bool,
) -> bool {
    forall|rest: Seq<ValidateBlockResponse>, end: Run| #[trigger]
        drains(current, roles, at, progress, rest, end) ==> drains(
            run,
            roles,
            0,
            false,
            answers + rest,
            end,
        )
}

proof fn lemma_drain_begins<R: Roles>(run: Run, roles: R)
    ensures
        goes_on(run, roles, Seq::empty(), run, 0, false),
{
    reveal(goes_on);
    let none = Seq::<ValidateBlockResponse>::empty();
    assert forall|rest: Seq<ValidateBlockResponse>, end: Run| #[trigger]
        drains(run, roles, 0, false, rest, end) implies drains(
        run,
        roles,
        0,
        false,
        none + rest,
        end,
    ) by {
        assert(none + rest =~= rest);
    }
}

proof fn lemma_drain_again<R: Roles>(
    run: Run,
    roles: R,
    answers: Seq<ValidateBlockResponse>,
    current: Run,
    at: int,
)
    requires
        goes_on(run, roles, answers, current, at, true),
        at >= current.hs.deferred_bodies.len(),
    ensures
        goes_on(run, roles, answers, current, 0, false),
{
    reveal(goes_on);
    assert forall|rest: Seq<ValidateBlockResponse>, end: Run| #[trigger]
        drains(current, roles, 0, false, rest, end) implies drains(
        run,
        roles,
        0,
        false,
        answers + rest,
        end,
    ) by {
        assert(drains(current, roles, at, true, rest, end));
    }
}

proof fn lemma_drain_step<R: Roles>(
    run: Run,
    roles: R,
    answers: Seq<ValidateBlockResponse>,
    current: Run,
    at: int,
    progress: bool,
    answer: ValidateBlockResponse,
)
    requires
        goes_on(run, roles, answers, current, at, progress),
        0 <= at < current.hs.deferred_bodies.len(),
    ensures
        ({
            let (next, place, advancing) = drain_step(current, roles, at, progress, answer);
            goes_on(run, roles, answers.push(answer), next, place, advancing)
        }),
{
    reveal(goes_on);
    let (next, place, advancing) = drain_step(current, roles, at, progress, answer);
    assert forall|rest: Seq<ValidateBlockResponse>, end: Run| #[trigger]
        drains(next, roles, place, advancing, rest, end) implies drains(
        run,
        roles,
        0,
        false,
        answers.push(answer) + rest,
        end,
    ) by {
        let longer = seq![answer] + rest;
        assert(longer.skip(1) =~= rest);
        assert(longer[0] == answer);
        assert(drains(current, roles, at, progress, longer, end));
        assert(answers + longer =~= answers.push(answer) + rest);
    }
}

proof fn lemma_drain_ends<R: Roles>(
    run: Run,
    roles: R,
    answers: Seq<ValidateBlockResponse>,
    current: Run,
    at: int,
)
    requires
        goes_on(run, roles, answers, current, at, false),
        at >= current.hs.deferred_bodies.len(),
    ensures
        drains(run, roles, 0, false, answers, current),
{
    reveal(goes_on);
    let nothing = Seq::<ValidateBlockResponse>::empty();
    assert(drains(current, roles, at, false, nothing, current));
    assert(answers + nothing =~= answers);
}

/// Whether taking the body at a place led from the state there to the next.
pub open spec fn is_body_step<R: Roles>(
    states: Seq<(HotStuff, BlockTreeSingleton)>,
    responses: Seq<BlockDataResponse>,
    roles: R,
    at: int,
) -> bool {
    body_received(
        states[at].0,
        states[at].1,
        states[at + 1].0,
        states[at + 1].1,
        roles,
        responses[at].block,
    )
}

/// Whether `states` are what the protocol and the tree go through as the bodies of `responses` are
/// taken one by one.
#[verifier::opaque]
pub open spec fn is_body_chain<R: Roles>(
    states: Seq<(HotStuff, BlockTreeSingleton)>,
    responses: Seq<BlockDataResponse>,
    roles: R,
) -> bool {
    &&& states.len() == responses.len() + 1
    &&& forall|i: int|
        0 <= i < responses.len() ==> #[trigger] is_body_step(states, responses, roles, i)
}

/// Whether taking the bodies of `responses` one by one led from `hs` and `tree` to `hs_after` and
/// `tree_after`.
pub open spec fn bodies_received<R: Roles>(
    hs: HotStuff,
    tree: BlockTreeSingleton,
    hs_after: HotStuff,
    tree_after: BlockTreeSingleton,
    roles: R,
    responses: Seq<BlockDataResponse>,
) -> bool {
    exists|states: Seq<(HotStuff, BlockTreeSingleton)>| #[trigger]
        is_body_chain(states, responses, roles) && states[0] == (hs, tree) && states.last() == (
            hs_after,
            tree_after,
        )
}

impl HotStuff {
    /// What the application is asked about a block.
    pub fn validation_request<'a>(
        block: &'a Block,
        block_tree: &'a BlockTreeSingleton,
    ) -> (r: Result<ValidateBlockRequest<'a>, BlockTreeError>)
        requires
            store::readable(block_tree@),
        ensures
            r is Ok,
            *r->Ok_0.proposed_block == *block,
            r->Ok_0.app_view.block_tree == block_tree,
            r->Ok_0.app_view.pending_ancestors_app_state_updates@ == app_view::pending_ancestry(
                block_tree@,
                if block.justify.is_genesis() {
                    None
                } else {
                    Some(block.justify.block)
                },
                u64::MAX as nat,
            ),
    {
        let parent = if block.justify.is_genesis_pc() {
            None
        } else {
            Some(&block.justify.block)
        };
        match block_tree.app_view(parent) {
            Ok(app_view) => Ok(ValidateBlockRequest { proposed_block: block, app_view }),
            Err(e) => Err(e),
        }
    }

    fn conclude_body<R: Roles>(
        &mut self,
        block: &Block,
        response: ValidateBlockResponse,
        block_tree: &mut BlockTreeSingleton,
        roles: &R,
        Ghost(start): Ghost<BlockTreeSingleton>,
        Ghost(run): Ghost<Run>,
    ) -> (r: bool)
        requires
            state::reached(start, *old(self), *old(block_tree), run),
            tree::initialized(run.tree),
        ensures
            state::reached(
                start,
                *final(self),
                *final(block_tree),
                body_settled(run, *roles, *block, response).0,
            ),
            tree::initialized(body_settled(run, *roles, *block, response).0.tree),
            r == body_settled(run, *roles, *block, response).1,
    {
        match response {
            ValidateBlockResponse::Valid { app_state_updates, validator_set_updates } => {
                let error = self.take_in(
                    block,
                    &app_state_updates,
                    &validator_set_updates,
                    block_tree,
                    roles,
                    Ghost(start),
                    Ghost(run),
                );
                if is_block_missing(&error) {
                    self.sync_needed = true;
                }
                true
            },
            ValidateBlockResponse::Invalid => {
                if contains_hash(&self.header_voted, &block.hash) && !contains_hash(
                    &self.invalid_header_votes,
                    &block.hash,
                ) {
                    self.invalid_header_votes.push(block.hash);
                }
                false
            },
            ValidateBlockResponse::MissingData => false,
        }
    }

    /// Act on the application's verdict on a body. Returns whether the block was taken in.
    pub fn settle_body<R: Roles>(
        &mut self,
        block: &Block,
        response: ValidateBlockResponse,
        block_tree: &mut BlockTreeSingleton,
        roles: &R,
    ) -> (r: bool)
        requires
            old(self).wf(),
            tree::initialized(old(block_tree)@),
        ensures
            state::reached(
                *old(block_tree),
                *final(self),
                *final(block_tree),
                body_settled(state::begin(*old(self), *old(block_tree)), *roles, *block, response).0,
            ),
            r == body_settled(state::begin(*old(self), *old(block_tree)), *roles, *block, response).1,
            tree::initialized(final(block_tree)@),
    {
        let ghost run = state::begin(*self, *block_tree);
        proof {
            state::lemma_begin(*self, *block_tree);
        }
        self.conclude_body(block, response, block_tree, roles, Ghost(*block_tree), Ghost(run))
    }

    /// Put a body before the application if its parent is in the tree. Returns whether the block
    /// was taken in, and the application's answer.
    fn try_insert_body<R: Roles, A: App>(
        &mut self,
        block: &Block,
        block_tree: &mut BlockTreeSingleton,
        app: &mut A,
        roles: &R,
        Ghost(start): Ghost<BlockTreeSingleton>,
        Ghost(run): Ghost<Run>,
    ) -> (r: (bool, Ghost<ValidateBlockResponse>))
        requires
            state::reached(start, *old(self), *old(block_tree), run),
            tree::initialized(run.tree),
        ensures
            state::reached(
                start,
                *final(self),
                *final(block_tree),
                body_tried(run, *roles, *block, r.1@).0,
            ),
            tree::initialized(body_tried(run, *roles, *block, r.1@).0.tree),
            r.0 == body_tried(run, *roles, *block, r.1@).1,
    {
        if !block.justify.is_genesis_pc() && !block_tree.contains(&block.justify.block) {
            return (false, Ghost(ValidateBlockResponse::Invalid));
        }
        let response = match Self::validation_request(block, block_tree) {
            Ok(request) => app.validate_block(request),
            Err(_) => ValidateBlockResponse::MissingData,
        };
        let ghost answer = response;
        let is_taken_in = self.conclude_body(
            block,
            response,
            block_tree,
            roles,
            Ghost(start),
            Ghost(run),
        );
        (is_taken_in, Ghost(answer))
    }

    /// Forget what is known of a block that was taken in.
    fn finish_body(&mut self, hash: &CryptoHash)
        requires
            old(self).wf(),
        ensures
            final(self).wf(),
            final(self)@ == (HsView {
                pending_headers: old(self)@.pending_headers.remove(*hash),
                body_fetches: old(self)@.body_fetches.filter(state::fetches_other(*hash)),
                justify_fetches: old(self)@.justify_fetches.filter(state::fetches_other(*hash)),
                ..old(self)@
            }),
    {
        let _ = self.pending_headers.remove(hash);
        self.body_fetches = without_fetch(&self.body_fetches, hash);
        self.justify_fetches = without_fetch(&self.justify_fetches, hash);
    }

    /// Try the bodies that were put off, for as long as some are taken in.
    fn drain_deferred_bodies<R: Roles, A: App>(
        &mut self,
        block_tree: &mut BlockTreeSingleton,
        app: &mut A,
        roles: &R,
        Ghost(start): Ghost<BlockTreeSingleton>,
        Ghost(run): Ghost<Run>,
    ) -> (r: (Ghost<Seq<ValidateBlockResponse>>, Ghost<Run>))
        requires
            state::reached(start, *old(self), *old(block_tree), run),
            tree::initialized(run.tree),
        ensures
            state::reached(start, *final(self), *final(block_tree), r.1@),
            tree::initialized(r.1@.tree),
            drains(run, *roles, 0, false, r.0@, r.1@),
    {
        let ghost mut answers: Seq<ValidateBlockResponse> = Seq::empty();
        let ghost mut current = run;
        let mut at: usize = 0;
        let mut progress = false;
        proof {
            lemma_drain_begins(run, *roles);
        }
        loop
            invariant
                state::reached(start, *self, *block_tree, current),
                tree::initialized(current.tree),
                goes_on(run, *roles, answers, current, at as int, progress),
                at <= self.deferred_bodies@.len(),
            ensures
                at >= self.deferred_bodies@.len(),
                !progress,
            decreases
                self.deferred_bodies@.len(),
                (if progress { 1int } else { 0int }),
                self.deferred_bodies@.len() - at,
        {
            if at >= self.deferred_bodies.len() {
                if !progress {
                    break;
                }
                proof {
                    lemma_drain_again(run, *roles, answers, current, at as int);
                }
                at = 0;
                progress = false;
                continue ;
            }
            let block = self.deferred_bodies[at].clone();
            let ghost before = current;
            let ghost place = at as int;
            let ghost advancing = progress;
            let (is_taken_in, answer) = self.try_insert_body(
                &block,
                block_tree,
                app,
                roles,
                Ghost(start),
                Ghost(current),
            );
            let ghost next = body_tried(before, *roles, block, answer@).0;
            proof {
                lemma_tried_keeps_deferred(before, *roles, block, answer@);
            }
            if is_taken_in {
                let _ = self.deferred_bodies.remove(at);
                proof {
                    current = state::now_holding(
                        next,
                        HsView {
                            deferred_bodies: next.hs.deferred_bodies.remove(place),
                            ..next.hs
                        },
                    );
                }
                assert(self@ =~= current.hs);
                self.finish_body(&block.hash);
                progress = true;
                proof {
                    current = body_done(current, block.hash);
                }
            } else {
                proof {
                    current = next;
                }
                at = at + 1;
            }
            proof {
                reveal(drain_step);
                lemma_drain_step(run, *roles, answers, before, place, advancing, answer@);
                answers = answers.push(answer@);
            }
        }
        proof {
            lemma_drain_ends(run, *roles, answers, current, at as int);
        }
        (Ghost(answers), Ghost(current))
    }

    /// Take in a body that is awaited, or put it off.
    pub(crate) fn accept_body<R: Roles, A: App>(
        &mut self,
        block: Block,
        block_tree: &mut BlockTreeSingleton,
        app: &mut A,
        roles: &R,
        Ghost(start): Ghost<BlockTreeSingleton>,
        Ghost(run): Ghost<Run>,
    ) -> (r: (Ghost<Seq<ValidateBlockResponse>>, Ghost<Run>))
        requires
            state::reached(start, *old(self), *old(block_tree), run),
            tree::initialized(run.tree),
        ensures
            state::reached(start, *final(self), *final(block_tree), r.1@),
            tree::initialized(r.1@.tree),
            body_accepted(run, *roles, block, r.0@, r.1@),
    {
        let (is_taken_in, answer) = self.try_insert_body(
            &block,
            block_tree,
            app,
            roles,
            Ghost(start),
            Ghost(run),
        );
        let ghost next = body_tried(run, *roles, block, answer@).0;
        if is_taken_in {
            self.finish_body(&block.hash);
            let ghost done = body_done(next, block.hash);
            let (answers, end) = self.drain_deferred_bodies(
                block_tree,
                app,
                roles,
                Ghost(start),
                Ghost(done),
            );
            let ghost all = seq![answer@] + answers@;
            assert(all.skip(1) =~= answers@);
            (Ghost(all), end)
        } else {
            let ghost answers = seq![answer@];
            let ghost end = body_put_off(next, block);
            let mut deferred = without_block(&self.deferred_bodies, &block.hash);
            self.body_fetches = without_fetch(&self.body_fetches, &block.hash);
            self.justify_fetches = without_fetch(&self.justify_fetches, &block.hash);
            deferred.push(block);
            self.deferred_bodies = deferred;
            (Ghost(answers), Ghost(end))
        }
    }

    /// Keep a body that came unasked.
    fn park_body(
        &mut self,
        block: Block,
        block_tree: &BlockTreeSingleton,
        Ghost(start): Ghost<BlockTreeSingleton>,
        Ghost(run): Ghost<Run>,
    )
        requires
            store::readable(block_tree@),
            state::reached(start, *old(self), *block_tree, run),
        ensures
            state::reached(start, *final(self), *block_tree, parked(run, block)),
    {
        if block_tree.contains(&block.hash) || body_len(&block.data) > BODY_PUSH_HARD_CAP_BYTES
            || is_held(&self.pushed_bodies, &block.hash) {
            return;
        }
        if self.pushed_bodies.len() >= PUSHED_BODY_BUFFER_CAP {
            let _ = self.pushed_bodies.remove(0);
            assert(self.pushed_bodies@ =~= run.hs.pushed_bodies.skip(1));
        }
        self.pushed_bodies.push(block);
    }

    /// Process a body: take it in if it is awaited, and keep it otherwise. A block whose hash is
    /// not that of its header fields is dropped.
    pub fn on_receive_block_data_response<R: Roles, A: App>(
        &mut self,
        response: BlockDataResponse,
        block_tree: &mut BlockTreeSingleton,
        app: &mut A,
        roles: &R,
    ) -> (r: Result<(), HotStuffError>)
        requires
            old(self).wf(),
            tree::initialized(old(block_tree)@),
        ensures
            r is Ok,
            body_received(
                *old(self),
                *old(block_tree),
                *final(self),
                *final(block_tree),
                *roles,
                response.block,
            ),
            final(self).wf(),
            tree::initialized(final(block_tree)@),
    {
        let block = response.block;
        let ghost start = *block_tree;
        let ghost run = state::begin(*self, *block_tree);
        proof {
            reveal(body_received);
            state::lemma_begin(*self, *block_tree);
        }
        if !block.is_hash_correct() {
            return Ok(());
        }
        if self.pending_headers.contains_key(&block.hash) || is_fetched(
            &self.justify_fetches,
            &block.hash,
        ) {
            let (answers, end) = self.accept_body(
                block,
                block_tree,
                app,
                roles,
                Ghost(start),
                Ghost(run),
            );
            assert(body_accepted(run, *roles, block, answers@, end@));
        } else {
            self.park_body(block, block_tree, Ghost(start), Ghost(run));
        }
        Ok(())
    }

    /// Serve a body, if the replica has it.
    pub fn on_receive_block_data_request(
        &mut self,
        request: BlockDataRequest,
        origin: &VerifyingKey,
        block_tree: &mut BlockTreeSingleton,
    ) -> (r: Result<(), HotStuffError>)
        requires
            store::readable(old(block_tree)@),
            old(self).wf(),
        ensures
            r is Ok,
            state::reached(
                *old(block_tree),
                *final(self),
                *final(block_tree),
                body_served(state::begin(*old(self), *old(block_tree)), request, *origin),
            ),
            *final(self) == *old(self),
            tree::initialized(old(block_tree)@) ==> tree::initialized(final(block_tree)@),
    {
        let ghost run = state::begin(*self, *block_tree);
        let ghost start = *block_tree;
        proof {
            state::lemma_begin(*self, *block_tree);
        }
        let block = match self.pending_bodies.get(&request.block_hash) {
            Some(block) => Some(block.clone()),
            None => match block_tree.block(&request.block_hash) {
                Ok(block) => block,
                Err(_) => None,
            },
        };
        match block {
            Some(block) => {
                let message = HotStuffMessage::BlockDataResponse(
                    BlockDataResponse { view: request.view, block },
                );
                block_tree.emit(Effect::Send(*origin, message));
                proof {
                    state::lemma_did(start, *self, start, *block_tree, run, voting::sent(*origin, message));
                }
            },
            None => {},
        }
        Ok(())
    }
}

/// A request for a body answered.
pub open spec fn body_served(run: Run, request: BlockDataRequest, origin: VerifyingKey) -> Run {
    let hash = request.block_hash;
    if run.hs.pending_bodies.contains_key(hash) {
        state::did(
            run,
            voting::sent(
                origin,
                HotStuffMessage::BlockDataResponse(
                    BlockDataResponse { view: request.view, block: run.hs.pending_bodies[hash] },
                ),
            ),
        )
    } else if run.tree.blocks.contains_key(hash) {
        state::did(
            run,
            voting::sent(
                origin,
                HotStuffMessage::BlockDataResponse(
                    BlockDataResponse { view: request.view, block: run.tree.blocks[hash] },
                ),
            ),
        )
    } else {
        run
    }
}

/// What the arrival of a body does: nothing to a block whose hash is wrong, taking in one that is
/// awaited on the application's answers, and keeping one that is not.
#[verifier::opaque]
pub open spec fn body_received<R: Roles>(
    hs: HotStuff,
    tree: BlockTreeSingleton,
    hs_after: HotStuff,
    tree_after: BlockTreeSingleton,
    roles: R,
    block: Block,
) -> bool {
    let run = state::begin(hs, tree);
    if !block.hash_matches() {
        state::reached(tree, hs_after, tree_after, run)
    } else if is_awaited(run.hs, block.hash) {
        exists|answers: Seq<ValidateBlockResponse>, end: Run| #[trigger]
            body_accepted(run, roles, block, answers, end) && state::reached(
                tree,
                hs_after,
                tree_after,
                end,
            )
    } else {
        state::reached(tree, hs_after, tree_after, parked(run, block))
    }
}

proof fn lemma_tried_keeps_deferred<R: Roles>(
    run: Run,
    roles: R,
    block: Block,
    response: ValidateBlockResponse,
)
    ensures
        body_tried(run, roles, block, response).0.hs.deferred_bodies == run.hs.deferred_bodies,
{
}

/// One more body goes at the end of a chain.
proof fn lemma_body_chain_grows<R: Roles>(
    states: Seq<(HotStuff, BlockTreeSingleton)>,
    responses: Seq<BlockDataResponse>,
    roles: R,
    response: BlockDataResponse,
    next: (HotStuff, BlockTreeSingleton),
)
    requires
        is_body_chain(states, responses, roles),
        body_received(
            states.last().0,
            states.last().1,
            next.0,
            next.1,
            roles,
            response.block,
        ),
    ensures
        is_body_chain(states.push(next), responses.push(response), roles),
        states.len() > 0,
{
    reveal(is_body_chain);
    let more = states.push(next);
    let now = responses.push(response);
    assert forall|i: int| 0 <= i < now.len() implies #[trigger] is_body_step(
        more,
        now,
        roles,
        i,
    ) by {
        if i < responses.len() {
            assert(is_body_step(states, responses, roles, i));
            assert(states[i] == more[i] && states[i + 1] == more[i + 1]);
            assert(responses[i] == now[i]);
        } else {
            assert(more[i] == states.last());
        }
    }
}

impl HotStuff {
    /// Take the bodies that came over the block-data channel.
    pub fn poll_block_data_responses<R: Roles, A: App>(
        &mut self,
        responses: Vec<BlockDataResponse>,
        block_tree: &mut BlockTreeSingleton,
        app: &mut A,
        roles: &R,
    ) -> (r: Result<(), HotStuffError>)
        requires
            old(self).wf(),
            tree::initialized(old(block_tree)@),
        ensures
            r is Ok,
            final(self).wf(),
            bodies_received(
                *old(self),
                *old(block_tree),
                *final(self),
                *final(block_tree),
                *roles,
                responses@,
            ),
            tree::initialized(final(block_tree)@),
    {
        let ghost all = responses@;
        let ghost mut states: Seq<(HotStuff, BlockTreeSingleton)> = seq![(*self, *block_tree)];
        let ghost mut taken: int = 0;
        let mut waiting = responses;
        assert(is_body_chain(states, all.take(0), *roles)) by {
            reveal(is_body_chain);
        }
        assert(all.skip(0) =~= all);
        while waiting.len() > 0
            invariant
                0 <= taken <= all.len(),
                waiting@ == all.skip(taken),
                self.wf(),
                tree::initialized(block_tree@),
                is_body_chain(states, all.take(taken), *roles),
                states.len() > 0,
                states[0] == (*old(self), *old(block_tree)),
                states.last() == (*self, *block_tree),
            decreases waiting@.len(),
        {
            let ghost known = states;
            let response = waiting.remove(0);
            let ghost said = response;
            match self.on_receive_block_data_response(response, block_tree, app, roles) {
                Ok(()) => {},
                Err(e) => {
                    return Err(e);
                },
            }
            proof {
                states = known.push((*self, *block_tree));
                assert(waiting@ =~= all.skip(taken + 1));
                assert(all.take(taken + 1) =~= all.take(taken).push(said));
                lemma_body_chain_grows(known, all.take(taken), *roles, said, (*self, *block_tree));
                taken = taken + 1;
            }
        }
        assert(all.take(taken) =~= all);
        Ok(())
    }
}

} // verus!

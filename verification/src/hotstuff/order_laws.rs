//! In which order a leader does things, and what a refused message does not do.

use vstd::prelude::*;

use crate::block_tree::commit::CommittedBlock;
use crate::block_tree::invariants;
use crate::block_tree::pruning;
use crate::block_tree::retention::Retention;
use crate::block_tree::speculation;
use crate::block_tree::store::TreeView;
use crate::block_tree::tree;
use crate::block_tree::updates;
use crate::block_tree::write_batch::Change;
use crate::effects::{Deed, Effect};
use crate::events::Event;
use crate::hotstuff::acting;
use crate::hotstuff::handlers;
use crate::hotstuff::headers;
use crate::hotstuff::messages::{BlockDataResponse, HotStuffMessage, Proposal, ProposalHeader};
use crate::hotstuff::proposing;
use crate::hotstuff::state;
use crate::hotstuff::state::{HsView, Run, SeenProposal};
use crate::hotstuff::types::PhaseCertificate;
use crate::hotstuff::voting;
use crate::roles::Roles;
use crate::types::block::Block;
use crate::types::data_types::{Power, VerifyingKey, ViewNumber};
use crate::types::update_sets::AppStateUpdates;
use crate::types::validator_set::ValidatorSetUpdates;

verus! {

/// Whether a header is announced.
pub open spec fn announces(deed: Deed) -> bool {
    deed matches Deed::Other(Effect::Broadcast(HotStuffMessage::ProposalHeader(_)))
}

/// Whether a vote is sent.
pub open spec fn casts_vote(deed: Deed) -> bool {
    deed matches Deed::Other(Effect::Send(_, HotStuffMessage::PhaseVote(_)))
}

/// Whether a committed block is handed out to the application.
pub open spec fn hands_out(deed: Deed) -> bool {
    deed matches Deed::Other(Effect::CommittedBlock(_, _))
}

/// Whether a block is asked for.
pub open spec fn asks_for_block(deed: Deed) -> bool {
    deed matches Deed::Other(Effect::RequestBlockData(_, _))
}

/// Whether something is only written, or told to observers.
pub open spec fn is_inner(deed: Deed) -> bool {
    match deed {
        Deed::Persist(_) => true,
        Deed::Other(Effect::Publish(_)) => true,
        _ => false,
    }
}

/// Whether everything is only written, or told to observers.
#[verifier::opaque]
pub open spec fn all_inner(deeds: Seq<Deed>) -> bool {
    forall|i: int| 0 <= i < deeds.len() ==> is_inner(#[trigger] deeds[i])
}

pub(crate) proof fn lemma_inner_concat(first: Seq<Deed>, second: Seq<Deed>)
    requires
        all_inner(first),
        all_inner(second),
    ensures
        all_inner(first + second),
{
    reveal(all_inner);
    let both = first + second;
    assert forall|i: int| 0 <= i < both.len() implies is_inner(#[trigger] both[i]) by {
        if i < first.len() {
            assert(both[i] == first[i]);
        } else {
            assert(both[i] == second[i - first.len()]);
        }
    }
}

proof fn lemma_settling_is_inner<R: Roles>(
    tree: TreeView,
    roles: R,
    committed: Seq<CommittedBlock>,
)
    ensures
        all_inner(updates::settle_all(tree, roles, committed)),
    decreases committed.len(),
{
    reveal(all_inner);
    if committed.len() > 0 {
        let before = updates::settle_all(tree, roles, committed.drop_last());
        lemma_settling_is_inner(tree, roles, committed.drop_last());
        let after = tree::replay(tree, before);
        let block = committed.last().0;
        let promoted = speculation::unspeculate(after, block);
        assert(all_inner(promoted));
        let settled = updates::settle_one(after, roles, block);
        assert(all_inner(settled)) by {
            let next = tree::replay(after, promoted);
            if next.blocks.contains_key(block) && !next.blocks[block].justify.is_genesis()
                && next.blocks[block].justify.view.0 < u64::MAX {
                let credited = speculation::credit_view(
                    next,
                    roles,
                    ViewNumber((next.blocks[block].justify.view.0 + 1) as u64),
                );
                assert(all_inner(credited));
                lemma_inner_concat(promoted, credited);
            }
        }
        lemma_inner_concat(before, settled);
    }
}

proof fn lemma_commit_events_are_inner(committed: Seq<CommittedBlock>)
    ensures
        all_inner(updates::all_commit_events(committed)),
    decreases committed.len(),
{
    reveal(all_inner);
    if committed.len() > 0 {
        lemma_commit_events_are_inner(committed.drop_last());
        lemma_inner_concat(
            updates::all_commit_events(committed.drop_last()),
            updates::commit_events(committed.last()),
        );
    }
}

proof fn lemma_update_events_are_inner(
    highest: Option<PhaseCertificate>,
    locked: Option<PhaseCertificate>,
    committed: Seq<CommittedBlock>,
)
    ensures
        all_inner(updates::update_events(highest, locked, committed)),
{
    lemma_commit_events_are_inner(committed);
    reveal(all_inner);
}

proof fn lemma_pruning_is_inner(tree: TreeView, retention: Retention)
    ensures
        all_inner(pruning::prune_deeds(tree, retention)),
{
    reveal(all_inner);
}

proof fn lemma_credit_is_inner<R: Roles>(
    tree: TreeView,
    roles: R,
    news: bool,
    justify: PhaseCertificate,
)
    ensures
        all_inner(updates::credit_news(tree, roles, news, justify)),
{
    reveal(all_inner);
}

/// What the tree does about a certificate is only written and told.
pub(crate) proof fn lemma_update_is_inner<R: Roles>(
    tree: TreeView,
    staged: Seq<Change>,
    justify: PhaseCertificate,
    roles: R,
    retention: Retention,
)
    ensures
        updates::staged_update_outcome(tree, staged, justify, roles, retention) matches Ok(outcome)
            ==> all_inner(outcome.0),
{
    let (commit_changes, result) = updates::justified_commit(tree, justify);
    if let Ok(committed) = result {
        let written = seq![
            Deed::Persist(
                staged + updates::lock_changes(tree, justify) + commit_changes + updates::decision(justify),
            ),
        ];
        assert(all_inner(written)) by {
            reveal(all_inner);
        }
        let news = updates::is_news(tree, justify);
        let credited = updates::credit_news(tree::replay(tree, written), roles, news, justify);
        lemma_credit_is_inner(tree::replay(tree, written), roles, news, justify);
        let settled = updates::settle_all(tree::replay(tree, written + credited), roles, committed);
        lemma_settling_is_inner(tree::replay(tree, written + credited), roles, committed);
        let events = updates::update_events(
            updates::new_highest(tree, justify),
            invariants::new_lock(tree, justify),
            committed,
        );
        lemma_update_events_are_inner(
            updates::new_highest(tree, justify),
            invariants::new_lock(tree, justify),
            committed,
        );
        lemma_inner_concat(written, credited);
        lemma_inner_concat(written + credited, settled);
        lemma_inner_concat(written + credited + settled, events);
        let before_pruning = written + credited + settled + events;
        lemma_pruning_is_inner(tree::replay(tree, before_pruning), retention);
        assert(all_inner(Seq::<Deed>::empty())) by {
            reveal(all_inner);
        }
        let pruned = if committed.len() == 0 {
            Seq::empty()
        } else {
            pruning::prune_deeds(tree::replay(tree, before_pruning), retention)
        };
        lemma_inner_concat(before_pruning, pruned);
    }
}

pub(crate) proof fn lemma_locking_is_inner<R: Roles>(tree: TreeView, justify: PhaseCertificate, roles: R)
    ensures
        all_inner(updates::locks_only_deeds(tree, justify, roles)),
{
    let batch = updates::lock_changes(tree, justify) + updates::decision(justify);
    let written = seq![Deed::Persist(batch)];
    assert(all_inner(written)) by {
        reveal(all_inner);
    }
    let news = updates::is_news(tree, justify);
    let credited = updates::credit_news(tree::replay(tree, written), roles, news, justify);
    lemma_credit_is_inner(tree::replay(tree, written), roles, news, justify);
    let events = updates::update_events(
        updates::new_highest(tree, justify),
        invariants::new_lock(tree, justify),
        Seq::empty(),
    );
    lemma_update_events_are_inner(
        updates::new_highest(tree, justify),
        invariants::new_lock(tree, justify),
        Seq::empty(),
    );
    lemma_inner_concat(written, credited);
    lemma_inner_concat(written + credited, events);
}

/// Whether a run goes on where another stands, and does only what `allowed` says.
#[verifier::opaque]
spec fn goes_on(before: Run, after: Run, allowed: spec_fn(Deed) -> bool) -> bool {
    &&& before.done.len() <= after.done.len()
    &&& forall|i: int| 0 <= i < before.done.len() ==> #[trigger] after.done[i] == before.done[i]
    &&& forall|i: int|
        before.done.len() <= i < after.done.len() ==> allowed(#[trigger] after.done[i])
}

/// What happens before blocks are handed out.
spec fn keeps_back() -> spec_fn(Deed) -> bool {
    |deed: Deed| !hands_out(deed)
}

/// What happens after the header is announced and the vote is cast.
spec fn stays_silent() -> spec_fn(Deed) -> bool {
    |deed: Deed| !announces(deed) && !casts_vote(deed)
}

/// What happens without a vote, once the header may be announced.
spec fn neither_votes_nor_hands_out() -> spec_fn(Deed) -> bool {
    |deed: Deed| !casts_vote(deed) && !hands_out(deed)
}

proof fn lemma_goes_on_trans(a: Run, b: Run, c: Run, allowed: spec_fn(Deed) -> bool)
    requires
        goes_on(a, b, allowed),
        goes_on(b, c, allowed),
    ensures
        goes_on(a, c, allowed),
{
    reveal(goes_on);
    assert forall|i: int| 0 <= i < a.done.len() implies #[trigger] c.done[i] == a.done[i] by {
        assert(b.done[i] == a.done[i]);
    }
    assert forall|i: int| a.done.len() <= i < c.done.len() implies allowed(
        #[trigger] c.done[i],
    ) by {
        if i < b.done.len() {
            assert(c.done[i] == b.done[i]);
        }
    }
}

/// Inner deeds go on in any of these ways.
proof fn lemma_inner_goes_on(run: Run, deeds: Seq<Deed>)
    requires
        all_inner(deeds),
    ensures
        goes_on(run, state::did(run, deeds), keeps_back()),
        goes_on(run, state::did(run, deeds), stays_silent()),
        goes_on(run, state::did(run, deeds), neither_votes_nor_hands_out()),
{
    reveal(goes_on);
    reveal(all_inner);
    let after = state::did(run, deeds);
    assert forall|i: int| run.done.len() <= i < after.done.len() implies is_inner(
        #[trigger] after.done[i],
    ) by {
        assert(after.done[i] == deeds[i - run.done.len()]);
    }
}

proof fn lemma_pushes(
    validators: Seq<(VerifyingKey, Power)>,
    me: VerifyingKey,
    response: BlockDataResponse,
)
    ensures
        forall|i: int|
            0 <= i < proposing::push_deeds(validators, me, response).len() ==> {
                let deed = #[trigger] proposing::push_deeds(validators, me, response)[i];
                !casts_vote(deed) && !hands_out(deed) && !announces(deed)
            },
    decreases validators.len(),
{
    if validators.len() > 0 {
        lemma_pushes(validators.drop_last(), me, response);
    }
}

/// A proposal is announced by a header, without a vote and without handing anything out.
proof fn lemma_proposed(run: Run, proposal: Proposal, changes_validators: bool)
    ensures
        ({
            let after = proposing::proposed(run, proposal, changes_validators);
            &&& goes_on(run, after, keeps_back())
            &&& goes_on(run, after, neither_votes_nor_hands_out())
            &&& run.done.len() + 1 < after.done.len()
            &&& announces(after.done[run.done.len() as int + 1])
        }),
{
    reveal(goes_on);
    let response = BlockDataResponse { view: proposal.view, block: proposal.block };
    lemma_pushes(tree::validators_of(run.tree).committed, run.hs.keypair.public_key(), response);
}

/// Handling one's own header hands nothing out.
proof fn lemma_handled_inline<R: Roles>(
    run: Run,
    roles: R,
    block: Block,
    changes_validators: bool,
    locked: bool,
)
    ensures
        goes_on(
            run,
            proposing::handled_inline(run, roles, block, changes_validators, locked),
            keeps_back(),
        ),
{
    let me = run.hs.keypair.public_key();
    let view = run.hs.view_info.view;
    let noted = state::now_holding(
        run,
        HsView {
            inline_header: Some(block.hash),
            seen: if state::recalled(run.hs.seen, view, me) is Some {
                run.hs.seen
            } else {
                run.hs.seen.push(SeenProposal { view, leader: me, hash: block.hash })
            },
            status: state::heard(run.hs.status, me),
            ..run.hs
        },
    );
    lemma_locking_is_inner(noted.tree, block.justify, roles);
    let locks = updates::locks_only_deeds(noted.tree, block.justify, roles);
    lemma_inner_goes_on(noted, locks);
    let safe = if locked {
        noted
    } else {
        state::did(noted, locks)
    };
    assert(goes_on(run, safe, keeps_back())) by {
        reveal(goes_on);
    }
    let voted = voting::voted(safe, roles, block.hash, proposing::first_phase(changes_validators), None);
    assert(goes_on(safe, voted, keeps_back())) by {
        reveal(goes_on);
    }
    lemma_goes_on_trans(run, safe, voted, keeps_back());
}

/// Making commits known announces nothing and casts no vote.
proof fn lemma_made_known(run: Run, committed: Seq<CommittedBlock>)
    ensures
        goes_on(run, acting::made_known(run, committed), stays_silent()),
{
    reveal(goes_on);
}

/// What the leader stores first is only written and told.
proof fn lemma_stored<R: Roles>(
    run: Run,
    roles: R,
    changes: Seq<Change>,
    block: Block,
    is_retry: bool,
)
    ensures
        ({
            let (after, result) = acting::updated(run, roles, changes, block.justify);
            let stored = match result {
                Ok(_) => after,
                Err(_) => state::did(after, seq![Deed::Persist(changes)]),
            };
            let missing = result matches Err(e) && acting::misses_block(Some(e));
            let flagged = state::now_holding(
                stored,
                HsView {
                    sync_needed: stored.hs.sync_needed || (is_retry && missing),
                    ..stored.hs
                },
            );
            let noted = state::told(flagged, Event::InsertBlock { block });
            &&& goes_on(run, noted, keeps_back())
            &&& goes_on(run, noted, stays_silent())
        }),
{
    reveal(goes_on);
    lemma_update_is_inner(run.tree, changes, block.justify, roles, run.retention);
    let watched = Run { watch: updates::watch_after(run.tree, block.justify, run.watch), ..run };
    let (after, result) = acting::updated(run, roles, changes, block.justify);
    let one = seq![Deed::Persist(changes)];
    assert(all_inner(one)) by {
        reveal(all_inner);
    }
    lemma_inner_goes_on(watched, one);
    if let Ok((deeds, _)) = updates::staged_update_outcome(
        run.tree,
        changes,
        block.justify,
        roles,
        run.retention,
    ) {
        lemma_inner_goes_on(watched, deeds);
    }
}

/// Whether, from `start` on, a header is announced, and headers and votes come before the blocks
/// that are handed out.
pub open spec fn speaks_first(done: Seq<Deed>, start: int) -> bool {
    &&& exists|i: int| start <= i < done.len() && announces(#[trigger] done[i])
    &&& forall|i: int, j: int|
        #![trigger done[i], done[j]]
        start <= i < done.len() && start <= j < done.len() && (announces(done[i]) || casts_vote(
            done[i],
        )) && hands_out(done[j]) ==> i < j
}

/// Whether, from `start` on, a header is announced, no vote is cast, and the blocks that are handed
/// out come before headers.
pub open spec fn hands_out_first(done: Seq<Deed>, start: int) -> bool {
    &&& exists|i: int| start <= i < done.len() && announces(#[trigger] done[i])
    &&& forall|i: int| start <= i < done.len() ==> !casts_vote(#[trigger] done[i])
    &&& forall|i: int, j: int|
        #![trigger done[i], done[j]]
        start <= i < done.len() && start <= j < done.len() && hands_out(done[i]) && announces(
            done[j],
        ) ==> i < j
}

proof fn lemma_speaks_first(run: Run, noted: Run, announced: Run, handled: Run, end: Run)
    requires
        goes_on(run, noted, keeps_back()),
        goes_on(noted, announced, keeps_back()),
        noted.done.len() + 1 < announced.done.len(),
        announces(announced.done[noted.done.len() as int + 1]),
        goes_on(announced, handled, keeps_back()),
        goes_on(handled, end, stays_silent()),
    ensures
        speaks_first(end.done, run.done.len() as int),
{
    lemma_goes_on_trans(run, noted, announced, keeps_back());
    lemma_goes_on_trans(run, announced, handled, keeps_back());
    reveal(goes_on);
    let at = noted.done.len() as int + 1;
    assert(handled.done[at] == announced.done[at]);
    assert(end.done[at] == handled.done[at]);
    let start = run.done.len() as int;
    assert forall|i: int, j: int|
        #![trigger end.done[i], end.done[j]]
        start <= i < end.done.len() && start <= j < end.done.len() && (announces(end.done[i])
            || casts_vote(end.done[i])) && hands_out(end.done[j]) implies i < j by {
        if i >= handled.done.len() {
            assert(stays_silent()(end.done[i]));
        } else if j < handled.done.len() {
            assert(end.done[j] == handled.done[j]);
            assert(keeps_back()(handled.done[j]));
        }
    }
}

proof fn lemma_hands_out_first(run: Run, noted: Run, known: Run, end: Run)
    requires
        goes_on(run, noted, stays_silent()),
        goes_on(noted, known, stays_silent()),
        goes_on(known, end, neither_votes_nor_hands_out()),
        known.done.len() + 1 < end.done.len(),
        announces(end.done[known.done.len() as int + 1]),
    ensures
        hands_out_first(end.done, run.done.len() as int),
{
    lemma_goes_on_trans(run, noted, known, stays_silent());
    reveal(goes_on);
    let start = run.done.len() as int;
    assert forall|i: int| start <= i < end.done.len() implies !casts_vote(
        #[trigger] end.done[i],
    ) by {
        if i < known.done.len() {
            assert(end.done[i] == known.done[i]);
            assert(stays_silent()(known.done[i]));
        } else {
            assert(neither_votes_nor_hands_out()(end.done[i]));
        }
    }
    assert forall|i: int, j: int|
        #![trigger end.done[i], end.done[j]]
        start <= i < end.done.len() && start <= j < end.done.len() && hands_out(end.done[i])
            && announces(end.done[j]) implies i < j by {
        if j < known.done.len() {
            assert(end.done[j] == known.done[j]);
            assert(stays_silent()(known.done[j]));
        } else if i >= known.done.len() {
            assert(neither_votes_nor_hands_out()(end.done[i]));
        }
    }
}

/// A leader that defers the feed announces its block and casts its own vote before it hands out
/// any block that its proposal committed.
pub proof fn law_deferred_feed_comes_last<R: Roles>(
    run: Run,
    roles: R,
    block: Block,
    app_state_updates: Option<AppStateUpdates>,
    validator_set_updates: Option<ValidatorSetUpdates>,
    is_retry: bool,
)
    requires
        run.hs.defer_feed,
    ensures
        speaks_first(
            proposing::led(
                run,
                roles,
                block,
                app_state_updates,
                validator_set_updates,
                is_retry,
            ).done,
            run.done.len() as int,
        ),
{
    let changes = updates::insertion(run.tree, block, app_state_updates, validator_set_updates);
    lemma_stored(run, roles, changes, block, is_retry);
    let (after, result) = acting::updated(run, roles, changes, block.justify);
    let (stored, committed, missing) = match result {
        Ok(committed) => (after, committed, false),
        Err(e) => (
            state::did(after, seq![Deed::Persist(changes)]),
            Seq::<CommittedBlock>::empty(),
            acting::misses_block(Some(e)),
        ),
    };
    let flagged = state::now_holding(
        stored,
        HsView { sync_needed: stored.hs.sync_needed || (is_retry && missing), ..stored.hs },
    );
    let noted = state::told(flagged, Event::InsertBlock { block });
    let proposal = proposing::proposal_for(noted.hs, block, None, None);
    let changes_validators = validator_set_updates is Some;
    let announced = proposing::proposed(noted, proposal, changes_validators);
    lemma_proposed(noted, proposal, changes_validators);
    let handled = proposing::handled_inline(
        announced,
        roles,
        block,
        changes_validators,
        result is Ok,
    );
    lemma_handled_inline(announced, roles, block, changes_validators, result is Ok);
    let end = acting::made_known(handled, committed);
    lemma_made_known(handled, committed);
    lemma_speaks_first(run, noted, announced, handled, end);
}

/// A leader that does not defer the feed hands out the blocks that its proposal committed before it
/// announces its block, and casts no vote: it votes when its own header comes back to it.
pub proof fn law_feed_comes_first_by_default<R: Roles>(
    run: Run,
    roles: R,
    block: Block,
    app_state_updates: Option<AppStateUpdates>,
    validator_set_updates: Option<ValidatorSetUpdates>,
    is_retry: bool,
)
    requires
        !run.hs.defer_feed,
    ensures
        hands_out_first(
            proposing::led(
                run,
                roles,
                block,
                app_state_updates,
                validator_set_updates,
                is_retry,
            ).done,
            run.done.len() as int,
        ),
{
    let changes = updates::insertion(run.tree, block, app_state_updates, validator_set_updates);
    lemma_stored(run, roles, changes, block, is_retry);
    let (after, result) = acting::updated(run, roles, changes, block.justify);
    let (stored, committed, missing) = match result {
        Ok(committed) => (after, committed, false),
        Err(e) => (
            state::did(after, seq![Deed::Persist(changes)]),
            Seq::<CommittedBlock>::empty(),
            acting::misses_block(Some(e)),
        ),
    };
    let flagged = state::now_holding(
        stored,
        HsView { sync_needed: stored.hs.sync_needed || (is_retry && missing), ..stored.hs },
    );
    let noted = state::told(flagged, Event::InsertBlock { block });
    let proposal = proposing::proposal_for(noted.hs, block, None, None);
    let changes_validators = validator_set_updates is Some;
    let known = acting::made_known(noted, committed);
    lemma_made_known(noted, committed);
    let end = proposing::proposed(known, proposal, changes_validators);
    lemma_proposed(known, proposal, changes_validators);
    lemma_hands_out_first(run, noted, known, end);
}

/// A collected certificate that is not correct, or that the lock rule does not allow, changes
/// neither the tree nor the participant.
pub proof fn law_unsafe_certificates_are_not_acted_on<R: Roles>(
    run: Run,
    roles: R,
    pc: PhaseCertificate,
)
    requires
        !handlers::collected_safe(run, pc),
    ensures
        handlers::certificate_collected(run, roles, pc).tree == run.tree,
        handlers::certificate_collected(run, roles, pc).hs == run.hs,
{
    tree::lemma_replay_one(
        run.tree,
        Deed::Other(Effect::Publish(Event::CollectPC { phase_certificate: pc })),
    );
}

/// A header that is not safe casts no vote and changes nothing in the tree: at most the block that
/// its certificate names is asked for.
pub proof fn law_unsafe_headers_cast_no_vote<R: Roles>(
    run: Run,
    roles: R,
    header: ProposalHeader,
    origin: VerifyingKey,
    now: u64,
)
    requires
        run.hs.inline_header != Some(header.block_hash),
        !headers::equivocates(run.hs, header.view, origin, header.block_hash),
        headers::header_consistent(header),
        !headers::header_safe(run, header.justify),
    ensures
        ({
            let (after, claimed) = headers::header_handled(run, roles, header, origin, now);
            &&& claimed is None
            &&& after.tree == run.tree
            &&& run.done.len() <= after.done.len()
            &&& forall|i: int|
                run.done.len() <= i < after.done.len()
                    ==> asks_for_block(#[trigger] after.done[i])
            &&& !run.tree.blocks.contains_key(header.justify.block) ==> after.hs.sync_needed
        }),
{
    let seen = headers::noted(run, header.view, origin, header.block_hash);
    assert(seen.tree == run.tree && seen.done == run.done);
    let (after, claimed) = headers::header_handled(run, roles, header, origin, now);
    if after.done.len() > run.done.len() {
        lemma_tree_unchanged(run.tree, after.done[run.done.len() as int]);
    }
}

/// What is only done, and not written, changes nothing in the tree.
proof fn lemma_tree_unchanged(tree: TreeView, deed: Deed)
    ensures
        deed is Other ==> tree::replay(tree, seq![deed]) == tree,
{
    tree::lemma_replay_one(tree, deed);
}

} // verus!

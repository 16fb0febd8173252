//! What holds of every step of the HotStuff subprotocol.

use vstd::prelude::*;

use crate::app::ValidateBlockResponse;
use crate::block_tree::commit::CommittedBlock;
use crate::block_tree::laws;
use crate::block_tree::store;
use crate::block_tree::store::TreeView;
use crate::block_tree::tree;
use crate::block_tree::updates;
use crate::block_tree::variables;
use crate::block_tree::write_batch::{Change, WriteOp};
use crate::effects::{Deed, Effect};
use crate::events::Event;
use crate::hotstuff::acting;
use crate::hotstuff::bodies;
use crate::hotstuff::body_push;
use crate::hotstuff::body_push::{BODY_PUSH_HARD_CAP_BYTES, PUSHED_BODY_BUFFER_CAP};
use crate::hotstuff::headers;
use crate::hotstuff::messages::{HotStuffMessage, PhaseVote, Proposal, ProposalHeader};
use crate::hotstuff::proposing;
use crate::hotstuff::state;
use crate::hotstuff::state::{HsView, Run, SeenProposal};
use crate::hotstuff::types::{Phase, PhaseCertificate};
use crate::hotstuff::voting;
use crate::pacemaker::TipInfo;
use crate::roles::Roles;
use crate::types::block::Block;
use crate::types::data_types::{CryptoHash, VerifyingKey, ViewNumber};
use crate::types::update_sets::AppStateUpdates;
use crate::types::validator_set::ValidatorSetUpdates;

verus! {

/// Whether `done` holds the durable record of a vote for `block` in `view` before it sends the
/// vote.
pub open spec fn recorded_before_sent(
    done: Seq<Deed>,
    record: Seq<Change>,
    to: VerifyingKey,
    message: HotStuffMessage,
) -> bool {
    exists|i: int, j: int|
        0 <= i < j < done.len() && #[trigger] done[i] == Deed::Persist(record)
            && #[trigger] done[j] == Deed::Other(Effect::Send(to, message))
}

/// What a vote for a block leaves in the tree's variables for votes.
proof fn lemma_vote_recorded(tree: TreeView, view: ViewNumber, block: CryptoHash)
    ensures
        tree::replay(tree, variables::vote_recorded(view, block)).highest_view_phase_voted == Some(view),
        tree::replay(tree, variables::vote_recorded(view, block)).last_voted_proposal == Some((view, block)),
{
    let first = Change::Plain(WriteOp::SetHighestViewPhaseVoted(view));
    let second = Change::Plain(WriteOp::SetLastVotedProposal(view, block));
    let none = Seq::<Change>::empty();
    tree::lemma_replay_one(tree, Deed::Persist(seq![first, second]));
    store::lemma_apply_push(tree, none, first);
    store::lemma_apply_push(tree, none.push(first), second);
    assert(none.push(first).push(second) =~= seq![first, second]);
}

/// What writing one variable does.
proof fn lemma_written(tree: TreeView, op: WriteOp)
    ensures
        tree::replay(tree, variables::written(op)) == store::apply_change(tree, Change::Plain(op)),
{
    let change = Change::Plain(op);
    let none = Seq::<Change>::empty();
    tree::lemma_replay_one(tree, Deed::Persist(seq![change]));
    store::lemma_apply_push(tree, none, change);
    assert(none.push(change) =~= seq![change]);
}

/// A vote that leaves changes nothing in the tree.
proof fn lemma_vote_left(run: Run, to: VerifyingKey, vote: PhaseVote)
    ensures
        voting::vote_left(run, to, vote).tree == run.tree,
        voting::vote_left(run, to, vote).hs == run.hs,
        voting::vote_left(run, to, vote).done == run.done.push(
            Deed::Other(Effect::Send(to, HotStuffMessage::PhaseVote(vote))),
        ).push(Deed::Other(Effect::Publish(Event::PhaseVote { vote }))),
{
    tree::lemma_replay_one(
        run.tree,
        Deed::Other(Effect::Send(to, HotStuffMessage::PhaseVote(vote))),
    );
    tree::lemma_replay_one(run.tree, Deed::Other(Effect::Publish(Event::PhaseVote { vote })));
    assert(voting::vote_left(run, to, vote).done =~= run.done.push(
        Deed::Other(Effect::Send(to, HotStuffMessage::PhaseVote(vote))),
    ).push(Deed::Other(Effect::Publish(Event::PhaseVote { vote }))));
}

/// The vote for a block is durable before it leaves, together with the proposal that it is for.
/// After it, the replica may not vote again in its view, whatever a proposal rests on.
pub proof fn law_votes_are_durable_and_single<R: Roles>(
    run: Run,
    roles: R,
    block: CryptoHash,
    phase: Phase,
    tip: Option<TipInfo>,
    justify: PhaseCertificate,
)
    ensures
        ({
            let after = voting::voted(run, roles, block, phase, tip);
            let vote = voting::vote_of(run.hs, block, phase);
            let view = run.hs.view_info.view;
            &&& recorded_before_sent(
                after.done,
                seq![
                    Change::Plain(WriteOp::SetHighestViewPhaseVoted(view)),
                    Change::Plain(WriteOp::SetLastVotedProposal(view, block)),
                ],
                voting::counter_of(run, roles, vote),
                HotStuffMessage::PhaseVote(vote),
            )
            &&& after.tree.highest_view_phase_voted == Some(view)
            &&& after.tree.last_voted_proposal == Some((view, block))
            &&& !voting::may_vote(after, roles, justify)
        }),
{
    let view = run.hs.view_info.view;
    let vote = voting::vote_of(run.hs, block, phase);
    let to = voting::counter_of(run, roles, vote);
    let record = seq![
        Change::Plain(WriteOp::SetHighestViewPhaseVoted(view)),
        Change::Plain(WriteOp::SetLastVotedProposal(view, block)),
    ];
    lemma_vote_recorded(run.tree, view, block);
    let recorded = state::did(run, variables::vote_recorded(view, block));
    assert(recorded.done =~= run.done.push(Deed::Persist(record)));
    let tipped = match tip {
        Some(tip) => state::did(recorded, variables::written(WriteOp::SetLocalTip(tip))),
        None => recorded,
    };
    if let Some(tip) = tip {
        lemma_written(recorded.tree, WriteOp::SetLocalTip(tip));
    }
    lemma_vote_left(tipped, to, vote);
    let after = voting::voted(run, roles, block, phase, tip);
    let i = run.done.len() as int;
    let j = tipped.done.len() as int;
    assert(tipped.done[i] == Deed::Persist(record));
    assert(after.done[i] == Deed::Persist(record));
    assert(after.done[j] == Deed::Other(Effect::Send(to, HotStuffMessage::PhaseVote(vote))));
}

/// The vote for a further phase of a block is durable before it leaves. After it, the replica may
/// not vote again in its view.
pub proof fn law_phase_votes_are_durable_and_single<R: Roles>(
    run: Run,
    roles: R,
    block: CryptoHash,
    phase: Phase,
    justify: PhaseCertificate,
)
    ensures
        ({
            let after = voting::phase_voted(run, roles, block, phase);
            let vote = voting::vote_of(run.hs, block, phase);
            let view = run.hs.view_info.view;
            &&& recorded_before_sent(
                after.done,
                seq![Change::Plain(WriteOp::SetHighestViewPhaseVoted(view))],
                voting::counter_of(run, roles, vote),
                HotStuffMessage::PhaseVote(vote),
            )
            &&& after.tree.highest_view_phase_voted == Some(view)
            &&& !voting::may_vote(after, roles, justify)
        }),
{
    let view = run.hs.view_info.view;
    let vote = voting::vote_of(run.hs, block, phase);
    let to = voting::counter_of(run, roles, vote);
    let record = seq![Change::Plain(WriteOp::SetHighestViewPhaseVoted(view))];
    lemma_written(run.tree, WriteOp::SetHighestViewPhaseVoted(view));
    let recorded = state::did(run, variables::written(WriteOp::SetHighestViewPhaseVoted(view)));
    assert(recorded.done =~= run.done.push(Deed::Persist(record)));
    lemma_vote_left(recorded, to, vote);
    let after = voting::phase_voted(run, roles, block, phase);
    let i = run.done.len() as int;
    assert(after.done[i] == Deed::Persist(record));
    assert(after.done[i + 1] == Deed::Other(Effect::Send(to, HotStuffMessage::PhaseVote(vote))));
}

/// A replica that votes on a header has locked first: when the vote is cast, the highest
/// certificate and the lock are at least as new as the certificate that the header rests on, but
/// for the lock on a prepare certificate.
pub proof fn law_headers_lock_before_the_vote<R: Roles>(
    run: Run,
    roles: R,
    header: ProposalHeader,
)
    requires
        tree::initialized(run.tree),
    ensures
        ({
            let locked = acting::refreshed(
                state::did(run, updates::locks_only_deeds(run.tree, header.justify, roles)),
            );
            &&& (locked.tree.highest_pc->0).view.0 >= header.justify.view.0
            &&& header.justify.phase != Phase::Prepare ==> (locked.tree.locked_pc->0).view.0
                >= header.justify.view.0
            &&& headers::header_voted_on(run, roles, header).done.len() >= locked.done.len()
            &&& headers::header_voted_on(run, roles, header).done.take(locked.done.len() as int)
                == locked.done
        }),
{
    laws::law_locking_ahead_is_not_repeated(run.tree, header.justify, roles);
    let locked = acting::refreshed(state::did(run, updates::locks_only_deeds(run.tree, header.justify, roles)));
    let after = headers::header_voted_on(run, roles, header);
    if voting::may_vote(locked, roles, header.justify) {
        let vote = voting::vote_of(
            locked.hs,
            header.block_hash,
            proposing::first_phase(header.has_validator_set_updates),
        );
        assert(after.done.take(locked.done.len() as int) =~= locked.done);
    } else {
        assert(after.done.take(locked.done.len() as int) =~= locked.done);
    }
}

/// Whether a run goes on where another stands.
spec fn continues(before: Run, after: Run) -> bool {
    &&& before.done.len() <= after.done.len()
    &&& forall|i: int| 0 <= i < before.done.len() ==> #[trigger] after.done[i] == before.done[i]
}

/// Voting goes on.
proof fn lemma_voted_continues<R: Roles>(
    run: Run,
    roles: R,
    block: CryptoHash,
    phase: Phase,
    tip: Option<TipInfo>,
)
    ensures
        continues(run, voting::voted(run, roles, block, phase, tip)),
{
}

/// Announcing a proposal goes on.
proof fn lemma_proposed_continues(run: Run, proposal: Proposal, changes_validators: bool)
    ensures
        continues(run, proposing::proposed(run, proposal, changes_validators)),
{
}

/// Making commits known goes on.
proof fn lemma_made_known_continues(run: Run, committed: Seq<CommittedBlock>)
    ensures
        continues(run, acting::made_known(run, committed)),
{
}

/// Handling one's own header goes on.
proof fn lemma_handled_inline_continues<R: Roles>(
    run: Run,
    roles: R,
    block: Block,
    changes_validators: bool,
    locked: bool,
)
    ensures
        continues(
            run,
            proposing::handled_inline(run, roles, block, changes_validators, locked),
        ),
{
    let me = run.hs.keypair.public_key();
    let view = run.hs.view_info.view;
    let noted = state::now_holding(
        run,
        HsView {
            inline_header: Some(block.hash),
            seen: if state::recalled(run.hs.seen, view, me) is Some {
                run.hs.seen
            } else {
                run.hs.seen.push(SeenProposal { view, leader: me, hash: block.hash })
            },
            status: state::heard(run.hs.status, me),
            ..run.hs
        },
    );
    let safe = if locked {
        noted
    } else {
        state::did(noted, updates::locks_only_deeds(noted.tree, block.justify, roles))
    };
    lemma_voted_continues(
        safe,
        roles,
        block.hash,
        proposing::first_phase(changes_validators),
        None,
    );
}

/// What a leader writes first.
proof fn lemma_first_write_of_leader<R: Roles>(
    run: Run,
    roles: R,
    changes: Seq<Change>,
    justify: PhaseCertificate,
)
    ensures
        ({
            let (after, result) = acting::updated(run, roles, changes, justify);
            let stored = match result {
                Ok(_) => after,
                Err(_) => state::did(after, seq![Deed::Persist(changes)]),
            };
            let at = run.done.len() as int;
            &&& stored.done.len() > at
            &&& stored.done[at] is Persist
            &&& changes.is_prefix_of(stored.done[at]->Persist_0)
        }),
{
    let outcome = updates::staged_update_outcome(
        run.tree,
        changes,
        justify,
        roles,
        run.retention,
    );
    assert(changes.subrange(0, changes.len() as int) =~= changes);
    if let Ok((deeds, _)) = outcome {
        let batch = changes + updates::lock_changes(run.tree, justify) + updates::justified_commit(
            run.tree,
            justify,
        ).0 + updates::decision(justify);
        assert(deeds[0] == Deed::Persist(batch));
        assert(batch.subrange(0, changes.len() as int) =~= changes);
    }
}

/// A leader's block, and what its certificate brings about, is written before anything else is
/// done about it: the header cannot leave before the block is durable.
pub proof fn law_headers_follow_the_block<R: Roles>(
    run: Run,
    roles: R,
    block: Block,
    app_state_updates: Option<AppStateUpdates>,
    validator_set_updates: Option<ValidatorSetUpdates>,
    is_retry: bool,
)
    ensures
        ({
            let after = proposing::led(
                run,
                roles,
                block,
                app_state_updates,
                validator_set_updates,
                is_retry,
            );
            let insertion = updates::insertion(
                run.tree,
                block,
                app_state_updates,
                validator_set_updates,
            );
            let first = run.done.len() as int;
            &&& after.done.len() > first
            &&& after.done[first] is Persist
            &&& insertion.is_prefix_of(after.done[first]->Persist_0)
        }),
{
    let changes = updates::insertion(run.tree, block, app_state_updates, validator_set_updates);
    lemma_first_write_of_leader(run, roles, changes, block.justify);
    let (after, result) = acting::updated(run, roles, changes, block.justify);
    let (stored, committed, missing) = match result {
        Ok(committed) => (after, committed, false),
        Err(e) => (
            state::did(after, seq![Deed::Persist(changes)]),
            Seq::<CommittedBlock>::empty(),
            acting::misses_block(Some(e)),
        ),
    };
    let flagged = state::now_holding(
        stored,
        HsView { sync_needed: stored.hs.sync_needed || (is_retry && missing), ..stored.hs },
    );
    let noted = state::told(flagged, Event::InsertBlock { block });
    assert(continues(stored, noted));
    let proposal = proposing::proposal_for(noted.hs, block, None, None);
    let changes_validators = validator_set_updates is Some;
    if run.hs.defer_feed {
        let announced = proposing::proposed(noted, proposal, changes_validators);
        lemma_proposed_continues(noted, proposal, changes_validators);
        let handled = proposing::handled_inline(
            announced,
            roles,
            block,
            changes_validators,
            result is Ok,
        );
        lemma_handled_inline_continues(
            announced,
            roles,
            block,
            changes_validators,
            result is Ok,
        );
        lemma_made_known_continues(handled, committed);
    } else {
        let known = acting::made_known(noted, committed);
        lemma_made_known_continues(noted, committed);
        lemma_proposed_continues(known, proposal, changes_validators);
    }
}

/// The bodies that come unasked are never more than the buffer holds, and none is larger than may
/// be pushed, if that was so before.
pub proof fn law_parked_bodies_are_bounded(run: Run, block: Block)
    requires
        run.hs.pushed_bodies.len() <= PUSHED_BODY_BUFFER_CAP,
        forall|i: int|
            0 <= i < run.hs.pushed_bodies.len() ==> body_push::body_size(
                (#[trigger] run.hs.pushed_bodies[i]).data,
            ) <= BODY_PUSH_HARD_CAP_BYTES,
    ensures
        bodies::parked(run, block).hs.pushed_bodies.len() <= PUSHED_BODY_BUFFER_CAP,
        forall|i: int|
            0 <= i < bodies::parked(run, block).hs.pushed_bodies.len() ==> body_push::body_size(
                (#[trigger] bodies::parked(run, block).hs.pushed_bodies[i]).data,
            ) <= BODY_PUSH_HARD_CAP_BYTES,
        bodies::parked(run, block).tree == run.tree,
        bodies::parked(run, block).done == run.done,
{
    let before = run.hs.pushed_bodies;
    let after = bodies::parked(run, block).hs.pushed_bodies;
    assert forall|i: int| 0 <= i < after.len() implies body_push::body_size((#[trigger] after[i]).data)
        <= BODY_PUSH_HARD_CAP_BYTES by {
        if after != before {
            if before.len() >= PUSHED_BODY_BUFFER_CAP {
                if i < after.len() - 1 {
                    assert(after[i] == before[i + 1]);
                }
            } else if i < after.len() - 1 {
                assert(after[i] == before[i]);
            }
        }
    }
}

/// A header vote for a block that turns out invalid is counted once, however often its body comes.
pub proof fn law_invalid_votes_are_counted_once<R: Roles>(run: Run, roles: R, block: Block)
    requires
        run.hs.header_voted.contains(block.hash),
    ensures
        ({
            let once = bodies::body_settled(run, roles, block, ValidateBlockResponse::Invalid).0;
            let twice = bodies::body_settled(once, roles, block, ValidateBlockResponse::Invalid).0;
            &&& once.hs.invalid_votes.contains(block.hash)
            &&& twice == once
        }),
{
    let once = bodies::body_settled(run, roles, block, ValidateBlockResponse::Invalid).0;
    if !run.hs.invalid_votes.contains(block.hash) {
        assert(once.hs.invalid_votes[run.hs.invalid_votes.len() as int] == block.hash);
    }
}

/// Shuffling keeps the keys: each is asked as often as it is listed.
pub proof fn law_shuffling_keeps_the_keys(keys: Seq<VerifyingKey>, seed: u64, from: int)
    requires
        from < keys.len(),
    ensures
        proposing::shuffled(keys, seed, from).to_multiset() == keys.to_multiset(),
        proposing::shuffled(keys, seed, from).len() == keys.len(),
    decreases from,
{
    if from >= 1 {
        let place = proposing::shuffle_place(seed, from);
        assert(0 <= place <= from) by (nonlinear_arith)
            requires
                place == (seed.wrapping_mul(
                    crate::hotstuff::proposing::SHUFFLE_MULTIPLIER,
                ).wrapping_add(from as u64) as int) % (from + 1),
                from >= 1,
        ;
        let next = proposing::swapped(keys, from, place);
        lemma_swap_keeps_the_keys(keys, from, place);
        law_shuffling_keeps_the_keys(next, seed, from - 1);
    }
}

/// Swapping two places keeps the keys.
proof fn lemma_swap_keeps_the_keys(keys: Seq<VerifyingKey>, i: int, j: int)
    requires
        0 <= i < keys.len(),
        0 <= j < keys.len(),
    ensures
        proposing::swapped(keys, i, j).to_multiset() == keys.to_multiset(),
        proposing::swapped(keys, i, j).len() == keys.len(),
{
    broadcast use vstd::seq_lib::group_to_multiset_ensures;

    let first = keys.update(i, keys[j]);
    vstd::seq_lib::to_multiset_update(keys, i, keys[j]);
    vstd::seq_lib::to_multiset_update(first, j, keys[i]);
    assert(proposing::swapped(keys, i, j).to_multiset() =~= keys.to_multiset());
}

} // verus!

//! What a participant remembers: whom it heard, what it saw, and for whom it collects votes.

use vstd::prelude::*;

use crate::block_tree::store::TreeView;
use crate::codec;
use crate::hotstuff::body_push;
use crate::hotstuff::body_push::BODY_PUSH_HARD_CAP_BYTES;
use crate::hotstuff::certificates;
use crate::hotstuff::collectors;
use crate::hotstuff::collectors::CollectorsView;
use crate::hotstuff::messages::Proposal;
use crate::hotstuff::state;
use crate::hotstuff::state::{
    HotStuffConfiguration, ProposalStatus, SeenProposal, SEEN_PROPOSALS_WINDOW,
};
use crate::hotstuff::types::NoEndorsementCertificate;
use crate::pacemaker::ViewInfo;
use crate::types::data_types::{CryptoHash, VerifyingKey, ViewNumber};
use crate::types::validator_set::ValidatorsView;

verus! {

/// At the start of a view every leader is listened to. A leader that was heard is not listened to
/// again in the view, while another one still is; after two were heard, nobody is.
pub proof fn law_each_leader_is_heard_once(
    first: VerifyingKey,
    second: VerifyingKey,
    third: VerifyingKey,
)
    ensures
        ({
            let waiting = ProposalStatus::WaitingForProposal;
            let one = state::heard(waiting, first);
            let two = state::heard(one, second);
            &&& state::still_accepts(waiting, first)
            &&& !state::still_accepts(one, first)
            &&& second != first ==> state::still_accepts(one, second)
            &&& !state::still_accepts(two, third)
        }),
{
}

/// A proposal that was seen is remembered for a number of views, and forgotten after that. The order
/// in which proposals were seen stays.
pub proof fn law_proposals_are_remembered_for_a_while(
    seen: Seq<SeenProposal>,
    view: ViewNumber,
    proposal: SeenProposal,
)
    ensures
        state::remembered(seen, view).contains(proposal) <==> seen.contains(proposal)
            && proposal.view.0 + SEEN_PROPOSALS_WINDOW >= view.0,
        state::remembered(seen, view).len() <= seen.len(),
{
    let cutoff: u64 = if view.0 >= SEEN_PROPOSALS_WINDOW {
        (view.0 - SEEN_PROPOSALS_WINDOW) as u64
    } else {
        0
    };
    lemma_filtered(seen, cutoff, proposal);
    seen.lemma_filter_len(state::is_recent(cutoff));
}

proof fn lemma_filtered(seen: Seq<SeenProposal>, cutoff: u64, proposal: SeenProposal)
    ensures
        seen.filter(state::is_recent(cutoff)).contains(proposal) <==> seen.contains(proposal)
            && proposal.view.0 >= cutoff,
    decreases seen.len(),
{
    reveal(Seq::filter);
    let kept = seen.filter(state::is_recent(cutoff));
    if seen.len() > 0 {
        let fewer = seen.drop_last();
        let n = fewer.len() as int;
        lemma_filtered(fewer, cutoff, proposal);
        let some = fewer.filter(state::is_recent(cutoff));
        assert(seen[n] == seen.last());
        if kept.contains(proposal) {
            let i = choose|i: int| 0 <= i < kept.len() && kept[i] == proposal;
            if i < some.len() {
                assert(some[i] == proposal);
                let j = choose|j: int| 0 <= j < fewer.len() && fewer[j] == proposal;
                assert(seen[j] == proposal);
            } else {
                assert(seen[n] == proposal);
            }
        }
        if seen.contains(proposal) && proposal.view.0 >= cutoff {
            let j = choose|j: int| 0 <= j < seen.len() && seen[j] == proposal;
            if j < n {
                assert(fewer[j] == proposal);
                let i = choose|i: int| 0 <= i < some.len() && some[i] == proposal;
                assert(kept[i] == proposal);
            } else {
                assert(kept[some.len() as int] == proposal);
            }
        }
    }
}

/// When the validators change within a view, votes that were collected for a set that is still to be
/// collected for stay, and for a new set the collection starts afresh, for the same chain and view.
/// Votes are collected for the previous validators exactly as long as the change is not decided.
pub proof fn law_collectors_follow_the_validators(pair: CollectorsView, validators: ValidatorsView)
    ensures
        ({
            let after = collectors::refreshed_collectors(pair, validators);
            &&& after.committed.validators == validators.committed
            &&& pair.committed.validators == validators.committed ==> after.committed
                == pair.committed
            &&& pair.committed.validators != validators.committed
                ==> after.committed.tallies.dom().is_empty() && after.committed.chain_id
                == pair.committed.chain_id && after.committed.view == pair.committed.view
            &&& after.previous is None <==> validators.update_decided
            &&& after.previous matches Some(previous) ==> {
                &&& previous.validators == validators.previous
                &&& pair.previous is Some && (pair.previous->0).validators == validators.previous
                    ==> previous == pair.previous->0
                &&& pair.previous is None || (pair.previous->0).validators != validators.previous
                    ==> previous.tallies.dom().is_empty() && previous.chain_id
                    == pair.committed.chain_id && previous.view == pair.committed.view
            }
        }),
{
}

/// A no-endorsement certificate is valid exactly if the high tip's certificate is more than one view
/// older than its view, and a quorum signed both views: a quorum of the committed validators, or of
/// the previous ones while a change of validators is not decided.
pub proof fn law_no_endorsement_certificates_are_signed(
    tree: TreeView,
    nec: NoEndorsementCertificate,
)
    requires
        tree.update_decided is Some,
    ensures
        ({
            let message = codec::ne_message(nec.view, nec.high_tip_qc_view);
            let by_committed = certificates::quorum_signed(
                nec.signatures@,
                tree.committed_validators->0,
                message,
            );
            let by_previous = certificates::quorum_signed(
                nec.signatures@,
                tree.previous_validators->0,
                message,
            );
            &&& nec.high_tip_qc_view.0 + 1 >= nec.view.0 ==> !certificates::nec_valid(tree, nec)
            &&& nec.high_tip_qc_view.0 + 1 < nec.view.0 && tree.update_decided == Some(true) ==> (
            certificates::nec_valid(tree, nec) <==> by_committed)
            &&& nec.high_tip_qc_view.0 + 1 < nec.view.0 && tree.update_decided == Some(false) ==> (
            certificates::nec_valid(tree, nec) <==> by_previous)
        }),
{
}

/// A participant that starts out has heard of nothing and waits for nothing: no proposal was seen, no
/// body is awaited, put off or kept, no vote was cast on a header, and it neither recovers nor needs
/// to sync. It pushes no bodies and does not defer the feed unless told to.
pub proof fn law_fresh_participants_know_nothing(
    config: HotStuffConfiguration,
    view_info: ViewInfo,
    pair: CollectorsView,
    hash: CryptoHash,
)
    ensures
        ({
            let hs = state::fresh_participant(config, view_info, pair);
            &&& hs.chain_id == config.chain_id
            &&& hs.keypair == config.keypair
            &&& hs.view_info == view_info
            &&& hs.collectors == pair
            &&& hs.status is WaitingForProposal
            &&& hs.recovery is Idle
            &&& hs.seen.len() == 0
            &&& hs.ne_sent_views.len() == 0
            &&& !hs.sync_needed
            &&& !hs.proposal_deferred
            &&& hs.inline_header is None
            &&& !hs.pending_bodies.contains_key(hash)
            &&& !hs.pending_headers.contains_key(hash)
            &&& hs.body_fetches.len() == 0
            &&& hs.justify_fetches.len() == 0
            &&& hs.deferred_bodies.len() == 0
            &&& hs.pushed_bodies.len() == 0
            &&& hs.header_voted.len() == 0
            &&& hs.invalid_votes.len() == 0
            &&& hs.push_limit == 0
            &&& !hs.defer_feed
        }),
{
}

/// A proposal whose block rests on the certificate of the view right before is fresh, and so is any
/// that carries a no-endorsement certificate, or a timeout certificate that reports a certificate and
/// does not settle on a tip. A proposal with neither, on an older certificate, is not.
pub proof fn law_which_proposals_are_fresh(proposal: Proposal)
    ensures
        proposal.block.justify.view.0 + 1 == proposal.view.0 ==> certificates::proposal_fresh(
            proposal,
        ),
        proposal.nec is Some ==> certificates::proposal_fresh(proposal),
        proposal.tc is Some && (proposal.tc->0).high_qc is Some && !(
        proposal.tc->0).high_tip_is_winner ==> certificates::proposal_fresh(proposal),
        proposal.block.justify.view.0 + 1 != proposal.view.0 && proposal.nec is None && (
        proposal.tc is None || (proposal.tc->0).high_qc is None || (
        proposal.tc->0).high_tip_is_winner) ==> !certificates::proposal_fresh(proposal),
{
}

/// White space around a setting does not matter, a setting that is missing or no number pushes
/// nothing, and no setting pushes more than the hard cap.
pub proof fn law_push_limits_are_capped(text: Seq<char>)
    ensures
        body_push::limit_of(None) == 0,
        body_push::limit_of(Some(text)) <= BODY_PUSH_HARD_CAP_BYTES,
        body_push::limit_of(Some(seq![' '] + text)) == body_push::limit_of(Some(text)),
        body_push::limit_of(Some(text)) > 0 ==> body_push::written_number(text) is Some,
        body_push::written_number(text) matches Some(number) ==> body_push::limit_of(Some(text))
            == (if number <= BODY_PUSH_HARD_CAP_BYTES {
            number
        } else {
            BODY_PUSH_HARD_CAP_BYTES
        }),
{
    let longer = seq![' '] + text;
    assert(longer.skip(1) =~= text);
}

} // verus!

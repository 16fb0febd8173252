//! The state of a participant in the HotStuff subprotocol.

use vstd::prelude::*;

use crate::block_tree::errors::BlockTreeError;
use crate::block_tree::retention::Retention;
use crate::block_tree::store::TreeView;
use crate::block_tree::tree;
use crate::block_tree::tree::{BlockTreeSingleton, GapWatch};
use crate::effects::{Deed, Effect};
use crate::events::Event;
use crate::hotstuff::collectors;
use crate::hotstuff::collectors::{ActiveCollectorPair, CollectorsView, NECollector, NEView};
use crate::hotstuff::messages::ProposalHeader;
use crate::pacemaker::{TimeoutCertificate, ViewInfo};
use crate::types::block::Block;
use crate::types::crypto_primitives::Keypair;
use crate::types::data_types::{ChainID, CryptoHash, VerifyingKey, ViewNumber};
use crate::types::table::Table;
use crate::types::validator_set::ValidatorSetState;

verus! {

/// The configuration of a participant.
pub struct HotStuffConfiguration {
    /// The chain that the replica tracks.
    pub chain_id: ChainID,
    /// The keypair with which the replica signs.
    pub keypair: Keypair,
}

/// The ways in which a step of the subprotocol can fail.
#[derive(PartialEq, Eq, Debug)]
pub enum HotStuffError {
    BlockTreeError(BlockTreeError),
}

impl From<BlockTreeError> for HotStuffError {
    fn from(value: BlockTreeError) -> (r: Self) {
        HotStuffError::BlockTreeError(value)
    }
}

impl vstd::std_specs::convert::FromSpecImpl<BlockTreeError> for HotStuffError {
    open spec fn obeys_from_spec() -> bool {
        true
    }

    open spec fn from_spec(value: BlockTreeError) -> Self {
        HotStuffError::BlockTreeError(value)
    }
}

/// Which leaders have proposed or nudged in the current view. A leader is heard once in a view.
#[derive(Clone, Copy, PartialEq, Eq, Debug)]
pub enum ProposalStatus {
    /// No leader has.
    WaitingForProposal,
    /// One leader has.
    OneLeaderProposed { leader: VerifyingKey },
    /// Every leader has.
    AllLeadersProposed,
}

/// The status after `leader` was heard.
pub open spec fn heard(status: ProposalStatus, leader: VerifyingKey) -> ProposalStatus {
    match status {
        ProposalStatus::WaitingForProposal => ProposalStatus::OneLeaderProposed { leader },
        _ => ProposalStatus::AllLeadersProposed,
    }
}

/// Whether a proposal or nudge of `leader` is still accepted.
pub open spec fn still_accepts(status: ProposalStatus, leader: VerifyingKey) -> bool {
    match status {
        ProposalStatus::WaitingForProposal => true,
        ProposalStatus::OneLeaderProposed { leader: first } => first != leader,
        ProposalStatus::AllLeadersProposed => false,
    }
}

impl ProposalStatus {
    /// Whether this leader alone has proposed or nudged.
    pub fn has_one_leader_proposed(&self, leader: &VerifyingKey) -> (r: bool)
        ensures
            r == (*self == ProposalStatus::OneLeaderProposed { leader: *leader }),
    {
        match self {
            ProposalStatus::OneLeaderProposed { leader: first } => *first == *leader,
            _ => false,
        }
    }

    /// Whether every leader has proposed or nudged.
    pub fn have_all_leaders_proposed(&self) -> (r: bool)
        ensures
            r == (self is AllLeadersProposed),
    {
        match self {
            ProposalStatus::AllLeadersProposed => true,
            _ => false,
        }
    }

    fn after(&self, leader: &VerifyingKey) -> (r: ProposalStatus)
        ensures
            r == heard(*self, *leader),
    {
        match self {
            ProposalStatus::WaitingForProposal => ProposalStatus::OneLeaderProposed {
                leader: *leader,
            },
            _ => ProposalStatus::AllLeadersProposed,
        }
    }
}

/// Whether a leader is looking for the block that a timed-out view left behind.
pub enum RecoveryState {
    /// It is not.
    Idle,
    /// It has asked for the block, and collects no-endorsements of it.
    Recovering { tc: TimeoutCertificate, ne_collector: NECollector },
}

/// What a [`RecoveryState`] says.
pub enum RecoveryView {
    Idle,
    Recovering { tc: TimeoutCertificate, collector: NEView },
}

/// The first block that a leader was seen to propose in a view.
#[derive(Clone, Copy, Debug)]
pub struct SeenProposal {
    pub view: ViewNumber,
    pub leader: VerifyingKey,
    pub hash: CryptoHash,
}

/// A body that was asked for.
#[derive(Clone, Copy, Debug)]
pub struct Fetch {
    pub hash: CryptoHash,
    pub view: ViewNumber,
    /// When the body was last asked for, in milliseconds.
    pub last_request: u64,
    pub retries: u8,
    /// Who announced the block.
    pub origin: VerifyingKey,
}

/// A single participant in the HotStuff subprotocol.
///
/// It is driven by events: [`HotStuff::enter_view`] when the pacemaker moves on, and
/// [`HotStuff::on_receive_msg`] when a message arrives.
pub struct HotStuff {
    pub config: HotStuffConfiguration,
    pub view_info: ViewInfo,
    pub proposal_status: ProposalStatus,
    pub phase_vote_collectors: ActiveCollectorPair,
    pub recovery_state: RecoveryState,
    /// The views in which a no-endorsement was sent.
    pub ne_sent_views: Vec<ViewNumber>,
    pub seen_proposals: Vec<SeenProposal>,
    pub sync_needed: bool,
    /// The bodies of the blocks that the replica proposed.
    pub pending_bodies: Table<CryptoHash, Block>,
    /// The headers whose body has not arrived.
    pub pending_headers: Table<CryptoHash, ProposalHeader>,
    pub body_fetches: Vec<Fetch>,
    /// The blocks that were asked for by hash because a certificate names them.
    pub justify_fetches: Vec<Fetch>,
    /// The bodies whose parent is not in the tree yet, oldest first.
    pub deferred_bodies: Vec<Block>,
    /// Whether a proposal waits for its parent to arrive.
    pub proposal_deferred: bool,
    /// The block of the last header that was handled while it was sent.
    pub inline_header: Option<CryptoHash>,
    /// The bodies that came unasked, oldest first.
    pub pushed_bodies: Vec<Block>,
    pub body_push_max_bytes: u64,
    /// Whether a leader sends its header and votes before it feeds the application.
    pub defer_commit_feed: bool,
    /// The blocks that were voted for before their body arrived.
    pub header_voted: Vec<CryptoHash>,
    /// Those among them that the application rejected.
    pub invalid_header_votes: Vec<CryptoHash>,
    /// When to look next for the block of the highest certificate, in milliseconds.
    pub missing_pc_check_at: u64,
}

/// What a [`HotStuff`] holds.
#[verifier::ext_equal]
pub struct HsView {
    pub chain_id: ChainID,
    pub keypair: Keypair,
    pub view_info: ViewInfo,
    pub status: ProposalStatus,
    pub collectors: CollectorsView,
    pub recovery: RecoveryView,
    pub ne_sent_views: Seq<ViewNumber>,
    pub seen: Seq<SeenProposal>,
    pub sync_needed: bool,
    pub pending_bodies: Map<CryptoHash, Block>,
    pub pending_headers: Map<CryptoHash, ProposalHeader>,
    pub body_fetches: Seq<Fetch>,
    pub justify_fetches: Seq<Fetch>,
    pub deferred_bodies: Seq<Block>,
    pub proposal_deferred: bool,
    pub inline_header: Option<CryptoHash>,
    pub pushed_bodies: Seq<Block>,
    pub push_limit: u64,
    pub defer_feed: bool,
    pub header_voted: Seq<CryptoHash>,
    pub invalid_votes: Seq<CryptoHash>,
    pub pc_check_at: u64,
}

impl View for RecoveryState {
    type V = RecoveryView;

    open spec fn view(&self) -> RecoveryView {
        match *self {
            RecoveryState::Idle => RecoveryView::Idle,
            RecoveryState::Recovering { tc, ne_collector } => RecoveryView::Recovering {
                tc,
                collector: ne_collector@,
            },
        }
    }
}

impl View for HotStuff {
    type V = HsView;

    open spec fn view(&self) -> HsView {
        HsView {
            chain_id: self.config.chain_id,
            keypair: self.config.keypair,
            view_info: self.view_info,
            status: self.proposal_status,
            collectors: self.phase_vote_collectors@,
            recovery: self.recovery_state@,
            ne_sent_views: self.ne_sent_views@,
            seen: self.seen_proposals@,
            sync_needed: self.sync_needed,
            pending_bodies: self.pending_bodies@,
            pending_headers: self.pending_headers@,
            body_fetches: self.body_fetches@,
            justify_fetches: self.justify_fetches@,
            deferred_bodies: self.deferred_bodies@,
            proposal_deferred: self.proposal_deferred,
            inline_header: self.inline_header,
            pushed_bodies: self.pushed_bodies@,
            push_limit: self.body_push_max_bytes,
            defer_feed: self.defer_commit_feed,
            header_voted: self.header_voted@,
            invalid_votes: self.invalid_header_votes@,
            pc_check_at: self.missing_pc_check_at,
        }
    }
}

/// A participant as it starts out.
pub open spec fn fresh_participant(
    config: HotStuffConfiguration,
    view_info: ViewInfo,
    collectors: CollectorsView,
) -> HsView {
    HsView {
        chain_id: config.chain_id,
        keypair: config.keypair,
        view_info,
        status: ProposalStatus::WaitingForProposal,
        collectors,
        recovery: RecoveryView::Idle,
        ne_sent_views: Seq::empty(),
        seen: Seq::empty(),
        sync_needed: false,
        pending_bodies: Map::empty(),
        pending_headers: Map::empty(),
        body_fetches: Seq::empty(),
        justify_fetches: Seq::empty(),
        deferred_bodies: Seq::empty(),
        proposal_deferred: false,
        inline_header: None,
        pushed_bodies: Seq::empty(),
        push_limit: 0,
        defer_feed: false,
        header_voted: Seq::empty(),
        invalid_votes: Seq::empty(),
        pc_check_at: 0,
    }
}

/// Where a step of the subprotocol stands: the participant, the block tree, and what has been done
/// since the step began.
pub struct Run {
    pub hs: HsView,
    pub tree: TreeView,
    pub watch: GapWatch,
    pub retention: Retention,
    pub done: Seq<Deed>,
}

/// A step that begins.
pub open spec fn begin(hs: HotStuff, tree: BlockTreeSingleton) -> Run {
    Run {
        hs: hs@,
        tree: tree@,
        watch: tree.gap_watch,
        retention: tree.retention,
        done: Seq::empty(),
    }
}

/// `run` with the deeds `deeds` done.
pub open spec fn did(run: Run, deeds: Seq<Deed>) -> Run {
    Run { tree: tree::replay(run.tree, deeds), done: run.done + deeds, ..run }
}

/// `run` with the event `event` published.
pub open spec fn told(run: Run, event: Event) -> Run {
    did(run, seq![Deed::Other(Effect::Publish(event))])
}

/// `run` with the participant changed to `hs`.
pub open spec fn now_holding(run: Run, hs: HsView) -> Run {
    Run { hs, ..run }
}

/// Whether the participant `hs` and the tree `tree`, with what was added to the tree's journal
/// since it was `start`, are where `run` says.
pub open spec fn reached(
    start: BlockTreeSingleton,
    hs: HotStuff,
    tree: BlockTreeSingleton,
    run: Run,
) -> bool {
    &&& hs.wf()
    &&& hs@ == run.hs
    &&& tree@ == run.tree
    &&& tree.deeds() == start.deeds() + run.done
    &&& tree.gap_watch == run.watch
    &&& tree.retention == run.retention
}

/// A step of the tree carries a run on.
pub proof fn lemma_did(
    start: BlockTreeSingleton,
    hs: HotStuff,
    tree: BlockTreeSingleton,
    after: BlockTreeSingleton,
    run: Run,
    deeds: Seq<Deed>,
)
    requires
        reached(start, hs, tree, run),
        tree::advanced(tree, after, deeds),
    ensures
        reached(start, hs, after, Run { watch: after.gap_watch, ..did(run, deeds) }),
        after.gap_watch == tree.gap_watch ==> reached(start, hs, after, did(run, deeds)),
        tree::initialized(run.tree) ==> tree::initialized(did(run, deeds).tree),
{
    assert((start.deeds() + run.done) + deeds =~= start.deeds() + (run.done + deeds));
    if tree::initialized(run.tree) {
        tree::lemma_replay_keeps_initialized(run.tree, deeds);
    }
}

/// A step begins where it begins.
pub proof fn lemma_begin(hs: HotStuff, tree: BlockTreeSingleton)
    requires
        hs.wf(),
    ensures
        reached(tree, hs, tree, begin(hs, tree)),
{
    assert(tree.deeds() + Seq::<Deed>::empty() =~= tree.deeds());
}

/// Nothing done changes nothing.
pub proof fn lemma_did_nothing(run: Run)
    ensures
        did(run, Seq::<Deed>::empty()) == run,
{
    assert(run.done + Seq::<Deed>::empty() =~= run.done);
}

/// The block that a leader was first seen to propose in a view.
pub open spec fn recalled(seen: Seq<SeenProposal>, view: ViewNumber, leader: VerifyingKey) -> Option<
    CryptoHash,
>
    decreases seen.len(),
{
    if seen.len() == 0 {
        None
    } else {
        match recalled(seen.drop_last(), view, leader) {
            Some(hash) => Some(hash),
            None => if seen.last().view == view && seen.last().leader == leader {
                Some(seen.last().hash)
            } else {
                None
            },
        }
    }
}

proof fn lemma_recalled_early(
    seen: Seq<SeenProposal>,
    view: ViewNumber,
    leader: VerifyingKey,
    upto: int,
)
    requires
        0 <= upto <= seen.len(),
        recalled(seen.take(upto), view, leader) is Some,
    ensures
        recalled(seen, view, leader) == recalled(seen.take(upto), view, leader),
    decreases seen.len() - upto,
{
    if upto < seen.len() {
        assert(seen.take(upto + 1).drop_last() =~= seen.take(upto));
        lemma_recalled_early(seen, view, leader, upto + 1);
    } else {
        assert(seen.take(upto) =~= seen);
    }
}

/// The test that a seen proposal is of the view `cutoff` or a later one.
pub open spec fn is_recent(cutoff: u64) -> spec_fn(SeenProposal) -> bool {
    |seen: SeenProposal| seen.view.0 >= cutoff
}

/// For how many views a seen proposal is remembered.
pub const SEEN_PROPOSALS_WINDOW: u64 = 100;

/// The proposals that are still remembered in `view`.
pub open spec fn remembered(seen: Seq<SeenProposal>, view: ViewNumber) -> Seq<SeenProposal> {
    let cutoff = if view.0 >= SEEN_PROPOSALS_WINDOW {
        (view.0 - SEEN_PROPOSALS_WINDOW) as u64
    } else {
        0
    };
    seen.filter(is_recent(cutoff))
}

/// The place of the fetch of `hash`.
pub open spec fn fetches_block(fetches: Seq<Fetch>, hash: CryptoHash) -> bool {
    exists|i: int| 0 <= i < fetches.len() && (#[trigger] fetches[i]).hash == hash
}

/// The test that a fetch is not of `hash`.
pub open spec fn fetches_other(hash: CryptoHash) -> spec_fn(Fetch) -> bool {
    |fetch: Fetch| fetch.hash != hash
}

/// The test that a block is not `hash`.
pub open spec fn is_other_block(hash: CryptoHash) -> spec_fn(Block) -> bool {
    |block: Block| block.hash != hash
}

/// Whether `blocks` holds the block `hash`.
pub open spec fn holds_block(blocks: Seq<Block>, hash: CryptoHash) -> bool {
    exists|i: int| 0 <= i < blocks.len() && (#[trigger] blocks[i]).hash == hash
}

/// Whether the body of a block is being asked for.
pub fn is_fetched(fetches: &Vec<Fetch>, hash: &CryptoHash) -> (r: bool)
    ensures
        r == fetches_block(fetches@, *hash),
{
    let mut i: usize = 0;
    while i < fetches.len()
        invariant
            i <= fetches@.len(),
            forall|j: int| 0 <= j < i ==> (#[trigger] fetches@[j]).hash != *hash,
        decreases fetches@.len() - i,
    {
        if fetches[i].hash == *hash {
            assert(fetches@[i as int].hash == *hash);
            return true;
        }
        i = i + 1;
    }
    false
}

/// The fetches of other blocks.
pub fn without_fetch(fetches: &Vec<Fetch>, hash: &CryptoHash) -> (r: Vec<Fetch>)
    ensures
        r@ == fetches@.filter(fetches_other(*hash)),
{
    let mut r: Vec<Fetch> = Vec::new();
    let mut i: usize = 0;
    let ghost keep = fetches_other(*hash);
    proof {
        reveal(Seq::filter);
        assert(fetches@.take(0).filter(keep) =~= Seq::<Fetch>::empty());
    }
    while i < fetches.len()
        invariant
            i <= fetches@.len(),
            r@ == fetches@.take(i as int).filter(keep),
            keep == fetches_other(*hash),
        decreases fetches@.len() - i,
    {
        proof {
            reveal(Seq::filter);
            assert(fetches@.take(i as int + 1).drop_last() =~= fetches@.take(i as int));
        }
        if fetches[i].hash != *hash {
            r.push(fetches[i]);
        }
        i = i + 1;
    }
    assert(fetches@.take(fetches@.len() as int) =~= fetches@);
    r
}

/// Whether a list of blocks holds a block.
pub fn is_held(blocks: &Vec<Block>, hash: &CryptoHash) -> (r: bool)
    ensures
        r == holds_block(blocks@, *hash),
{
    let mut i: usize = 0;
    while i < blocks.len()
        invariant
            i <= blocks@.len(),
            forall|j: int| 0 <= j < i ==> (#[trigger] blocks@[j]).hash != *hash,
        decreases blocks@.len() - i,
    {
        if blocks[i].hash == *hash {
            assert(blocks@[i as int].hash == *hash);
            return true;
        }
        i = i + 1;
    }
    false
}

/// The other blocks of a list.
pub fn without_block(blocks: &Vec<Block>, hash: &CryptoHash) -> (r: Vec<Block>)
    ensures
        r@ == blocks@.filter(is_other_block(*hash)),
{
    let mut r: Vec<Block> = Vec::new();
    let mut i: usize = 0;
    let ghost keep = is_other_block(*hash);
    proof {
        reveal(Seq::filter);
        assert(blocks@.take(0).filter(keep) =~= Seq::<Block>::empty());
    }
    while i < blocks.len()
        invariant
            i <= blocks@.len(),
            r@ == blocks@.take(i as int).filter(keep),
            keep == is_other_block(*hash),
        decreases blocks@.len() - i,
    {
        proof {
            reveal(Seq::filter);
            assert(blocks@.take(i as int + 1).drop_last() =~= blocks@.take(i as int));
        }
        if blocks[i].hash != *hash {
            r.push(blocks[i].clone());
        }
        i = i + 1;
    }
    assert(blocks@.take(blocks@.len() as int) =~= blocks@);
    r
}

impl HotStuff {
    /// Whether the participant's own bookkeeping is consistent.
    pub open spec fn wf(&self) -> bool {
        &&& collectors::collectors_sound(self@.collectors)
        &&& match self.recovery_state {
            RecoveryState::Idle => true,
            RecoveryState::Recovering { tc, ne_collector } => ne_collector.wf(),
        }
    }

    /// A participant that starts in the view `view_info`.
    pub fn new(
        config: HotStuffConfiguration,
        view_info: ViewInfo,
        init_validator_set_state: ValidatorSetState,
    ) -> (r: Self)
        ensures
            r.wf(),
            r@ == fresh_participant(
                config,
                view_info,
                collectors::fresh_collectors(config.chain_id, view_info.view, init_validator_set_state@),
            ),
    {
        let phase_vote_collectors = ActiveCollectorPair::new(
            config.chain_id,
            view_info.view,
            &init_validator_set_state,
        );
        let r = HotStuff {
            config,
            view_info,
            proposal_status: ProposalStatus::WaitingForProposal,
            phase_vote_collectors,
            recovery_state: RecoveryState::Idle,
            ne_sent_views: Vec::new(),
            seen_proposals: Vec::new(),
            sync_needed: false,
            pending_bodies: Table::new(),
            pending_headers: Table::new(),
            body_fetches: Vec::new(),
            justify_fetches: Vec::new(),
            deferred_bodies: Vec::new(),
            proposal_deferred: false,
            inline_header: None,
            pushed_bodies: Vec::new(),
            body_push_max_bytes: 0,
            defer_commit_feed: false,
            header_voted: Vec::new(),
            invalid_header_votes: Vec::new(),
            missing_pc_check_at: 0,
        };
        assert(r@ =~= fresh_participant(
            config,
            view_info,
            collectors::fresh_collectors(config.chain_id, view_info.view, init_validator_set_state@),
        ));
        r
    }

    /// Set the limit under which bodies are pushed.
    pub fn set_body_push_max_bytes(&mut self, max_bytes: u64)
        ensures
            final(self)@ == (HsView { push_limit: max_bytes, ..old(self)@ }),
            old(self).wf() ==> final(self).wf(),
    {
        self.body_push_max_bytes = max_bytes;
    }

    /// Set whether a leader sends its header and votes before it feeds the application.
    pub fn set_defer_commit_feed(&mut self, defer: bool)
        ensures
            final(self)@ == (HsView { defer_feed: defer, ..old(self)@ }),
            old(self).wf() ==> final(self).wf(),
    {
        self.defer_commit_feed = defer;
    }

    /// Whether blocks have to be fetched from peers. The answer is given once.
    pub fn take_sync_needed(&mut self) -> (r: bool)
        ensures
            r == old(self)@.sync_needed,
            final(self)@ == (HsView { sync_needed: false, ..old(self)@ }),
            old(self).wf() ==> final(self).wf(),
    {
        let needed = self.sync_needed;
        self.sync_needed = false;
        needed
    }

    /// Whether the participant has yet to enter the pacemaker's view.
    pub fn is_view_outdated(&self, new_view_info: &ViewInfo) -> (r: bool)
        ensures
            r == (new_view_info.view != self@.view_info.view),
    {
        new_view_info.view.0 != self.view_info.view.0
    }

    /// Whether a proposal waits for its parent to arrive.
    pub fn has_deferred_proposal(&self) -> (r: bool)
        ensures
            r == self@.proposal_deferred,
    {
        self.proposal_deferred
    }

    /// The body of a block that the replica proposed.
    pub fn pending_body(&self, hash: &CryptoHash) -> (r: Option<&Block>)
        ensures
            match r {
                Some(block) => self@.pending_bodies.contains_key(*hash) && *block
                    == self@.pending_bodies[*hash],
                None => !self@.pending_bodies.contains_key(*hash),
            },
    {
        self.pending_bodies.get(hash)
    }

    /// Hand out the body of a block that the replica proposed.
    pub fn take_pending_body(&mut self, hash: &CryptoHash) -> (r: Option<Block>)
        ensures
            r == (if old(self)@.pending_bodies.contains_key(*hash) {
                Some(old(self)@.pending_bodies[*hash])
            } else {
                None
            }),
            final(self)@ == (HsView {
                pending_bodies: old(self)@.pending_bodies.remove(*hash),
                ..old(self)@
            }),
            old(self).wf() ==> final(self).wf(),
    {
        self.pending_bodies.remove(hash)
    }

    /// Whether bodies are being asked for.
    pub fn has_pending_body_fetches(&self) -> (r: bool)
        ensures
            r == (self@.body_fetches.len() > 0),
    {
        self.body_fetches.len() > 0
    }

    /// Whether blocks are being asked for because a certificate names them.
    pub fn has_pending_justify_fetches(&self) -> (r: bool)
        ensures
            r == (self@.justify_fetches.len() > 0),
    {
        self.justify_fetches.len() > 0
    }

    /// How many bodies that came unasked are kept.
    pub fn pushed_body_buffer_len(&self) -> (r: usize)
        ensures
            r == self@.pushed_bodies.len(),
    {
        self.pushed_bodies.len()
    }

    /// How many blocks were voted for by their header and then rejected by the application.
    pub fn header_vote_invalid_count(&self) -> (r: u64)
        ensures
            r == self@.invalid_votes.len(),
    {
        self.invalid_header_votes.len() as u64
    }

    /// Take note that `leader` was heard in this view.
    pub(crate) fn hear(&mut self, leader: &VerifyingKey)
        ensures
            final(self)@ == (HsView { status: heard(old(self)@.status, *leader), ..old(self)@ }),
            old(self).wf() ==> final(self).wf(),
    {
        self.proposal_status = self.proposal_status.after(leader);
    }

    /// The block that a leader was first seen to propose in a view.
    pub(crate) fn first_proposal(&self, view: ViewNumber, leader: &VerifyingKey) -> (r: Option<
        CryptoHash,
    >)
        ensures
            r == recalled(self@.seen, view, *leader),
    {
        let mut i: usize = 0;
        assert(self.seen_proposals@.take(0) =~= Seq::<SeenProposal>::empty());
        while i < self.seen_proposals.len()
            invariant
                i <= self.seen_proposals@.len(),
                recalled(self.seen_proposals@.take(i as int), view, *leader) is None,
            decreases self.seen_proposals@.len() - i,
        {
            let seen = self.seen_proposals[i];
            proof {
                assert(self.seen_proposals@.take(i + 1).drop_last() =~= self.seen_proposals@.take(
                    i as int,
                ));
            }
            if seen.view.0 == view.0 && seen.leader == *leader {
                proof {
                    lemma_recalled_early(self.seen_proposals@, view, *leader, i + 1);
                }
                return Some(seen.hash);
            }
            i = i + 1;
        }
        assert(self.seen_proposals@.take(i as int) =~= self.seen_proposals@);
        None
    }

    /// Forget the proposals of views long past.
    pub(crate) fn forget_old_proposals(&mut self)
        ensures
            final(self)@ == (HsView {
                seen: remembered(old(self)@.seen, old(self)@.view_info.view),
                ..old(self)@
            }),
            old(self).wf() ==> final(self).wf(),
    {
        let cutoff: u64 = if self.view_info.view.0 >= SEEN_PROPOSALS_WINDOW {
            self.view_info.view.0 - SEEN_PROPOSALS_WINDOW
        } else {
            0
        };
        let mut kept: Vec<SeenProposal> = Vec::new();
        let mut i: usize = 0;
        let ghost keep = is_recent(cutoff);
        proof {
            reveal(Seq::filter);
            assert(self.seen_proposals@.take(0).filter(keep) =~= Seq::<SeenProposal>::empty());
        }
        while i < self.seen_proposals.len()
            invariant
                i <= self.seen_proposals@.len(),
                kept@ == self.seen_proposals@.take(i as int).filter(keep),
                keep == is_recent(cutoff),
                *self == *old(self),
            decreases self.seen_proposals@.len() - i,
        {
            proof {
                reveal(Seq::filter);
                assert(self.seen_proposals@.take(i as int + 1).drop_last()
                    =~= self.seen_proposals@.take(i as int));
            }
            if self.seen_proposals[i].view.0 >= cutoff {
                kept.push(self.seen_proposals[i]);
            }
            i = i + 1;
        }
        assert(self.seen_proposals@.take(self.seen_proposals@.len() as int)
            =~= self.seen_proposals@);
        self.seen_proposals = kept;
    }
}

} // verus!

//! Proposals that are announced by their header, and leaders that announce two.

use vstd::prelude::*;

use crate::app::{App, ValidateBlockResponse};
use crate::block_tree::invariants;
use crate::block_tree::invariants::{safe_pc, safe_pc_lock_clause};
use crate::block_tree::speculation;
use crate::block_tree::tree;
use crate::block_tree::tree::BlockTreeSingleton;
use crate::block_tree::updates;
use crate::effects::{Deed, Effect};
use crate::events::Event;
use crate::hotstuff::acting;
use crate::hotstuff::bodies;
use crate::hotstuff::bodies::find_block;
use crate::hotstuff::certificates;
use crate::hotstuff::fetching;
use crate::hotstuff::messages::{BlockDataRequest, ProposalHeader};
use crate::hotstuff::proposing;
use crate::hotstuff::state;
use crate::hotstuff::state::{
    is_fetched, without_block, without_fetch, Fetch, HotStuff, HotStuffError, HsView, Run,
    SeenProposal,
};
use crate::hotstuff::types::{EquivocationEvidence, Phase, PhaseCertificate};
use crate::hotstuff::voting;
use crate::roles::Roles;
use crate::types::block;
use crate::types::block::Block;
use crate::types::data_types::{contains_hash, CryptoHash, VerifyingKey, ViewNumber};

verus! {

/// A speculative commit undone, if there is one.
pub open spec fn rolled_back(run: Run, block: CryptoHash, evidence: EquivocationEvidence) -> Run {
    if run.tree.speculative_commits.contains(block) {
        let undone = state::did(run, speculation::unspeculate(run.tree, block));
        let event = Event::RollbackBlock {
            block,
            view: evidence.view,
            equivocator: evidence.leader,
        };
        state::did(
            state::told(undone, event),
            seq![Deed::Other(Effect::SpeculativeRollback(block, evidence))],
        )
    } else {
        run
    }
}

/// A leader caught proposing two blocks in one view: observers are told, the evidence is kept, and
/// the first block is no longer taken as committed.
pub open spec fn caught(run: Run, evidence: EquivocationEvidence) -> Run {
    let detected = state::told(run, Event::EquivocationDetected { evidence });
    rolled_back(
        state::did(detected, speculation::record_evidence(detected.tree, evidence)),
        evidence.block_a,
        evidence,
    )
}

/// A proposal taken note of.
pub open spec fn noted(
    run: Run,
    view: ViewNumber,
    leader: VerifyingKey,
    hash: CryptoHash,
) -> Run {
    if state::recalled(run.hs.seen, view, leader) is Some {
        run
    } else {
        state::now_holding(
            run,
            HsView { seen: run.hs.seen.push(SeenProposal { view, leader, hash }), ..run.hs },
        )
    }
}

/// Whether the leader was seen to propose another block in the view.
pub open spec fn equivocates(
    hs: HsView,
    view: ViewNumber,
    leader: VerifyingKey,
    hash: CryptoHash,
) -> bool {
    match state::recalled(hs.seen, view, leader) {
        Some(first) => first != hash,
        None => false,
    }
}

/// The evidence against a leader that was seen to propose another block in the view.
pub open spec fn evidence_against(
    hs: HsView,
    view: ViewNumber,
    leader: VerifyingKey,
    hash: CryptoHash,
) -> EquivocationEvidence {
    EquivocationEvidence {
        view,
        leader,
        block_a: state::recalled(hs.seen, view, leader)->0,
        block_b: hash,
    }
}

/// Whether the block of a certificate is known by a header or as a proposal of the replica's own.
pub open spec fn is_pending(hs: HsView, hash: CryptoHash) -> bool {
    hs.pending_headers.contains_key(hash) || hs.pending_bodies.contains_key(hash)
}

/// Whether a block on top of `justify` may be voted for. Where the block of the certificate is
/// still on its way, it need not be in the tree; the lock rule holds all the same.
pub open spec fn header_safe(run: Run, justify: PhaseCertificate) -> bool {
    &&& certificates::pc_correct(run.tree, justify)
    &&& justify.justifies_block()
    &&& if is_pending(run.hs, justify.block) {
        &&& invariants::lock_clause(run.tree, justify)
        &&& (justify.chain_id == run.hs.chain_id || justify.is_genesis())
    } else {
        invariants::pc_safe(run.tree, justify, run.hs.chain_id)
    }
}

/// Whether a header names the block that its fields make.
pub open spec fn header_consistent(header: ProposalHeader) -> bool {
    header.block_hash == block::block_hash(header.height, header.justify, header.data_hash)
}

/// An unsafe header: a block that its certificate names and that is not known is asked for.
pub open spec fn header_refused(
    run: Run,
    header: ProposalHeader,
    origin: VerifyingKey,
    now: u64,
) -> Run {
    let wanted = if run.tree.blocks.contains_key(header.justify.block) {
        run
    } else {
        let flagged = state::now_holding(run, HsView { sync_needed: true, ..run.hs });
        if certificates::pc_correct(run.tree, header.justify) && !header.justify.is_genesis() && !fetching::is_asked_for(
            run.hs,
            header.justify.block,
        ) {
            fetching::justify_requested(flagged, header.justify.block, header.justify.view, origin, now)
        } else {
            flagged
        }
    };
    state::now_holding(wanted, HsView { status: state::heard(wanted.hs.status, origin), ..wanted.hs })
}

/// A safe header voted on: the highest certificate and the lock move on first.
pub open spec fn header_voted_on<R: Roles>(run: Run, roles: R, header: ProposalHeader) -> Run {
    let locked = acting::refreshed(state::did(run, updates::locks_only_deeds(run.tree, header.justify, roles)));
    if voting::may_vote(locked, roles, header.justify) {
        let blind = if locked.tree.blocks.contains_key(header.block_hash)
            || locked.hs.header_voted.contains(header.block_hash) {
            locked
        } else {
            state::now_holding(
                locked,
                HsView {
                    header_voted: locked.hs.header_voted.push(header.block_hash),
                    ..locked.hs
                },
            )
        };
        voting::voted(
            blind,
            roles,
            header.block_hash,
            proposing::first_phase(header.has_validator_set_updates),
            None,
        )
    } else {
        locked
    }
}

/// The body of a safe header obtained: nothing is to be done if the block is in the tree, a body
/// that is kept is claimed, and any other is asked for.
pub open spec fn body_sought(
    run: Run,
    header: ProposalHeader,
    origin: VerifyingKey,
    now: u64,
) -> (Run, Option<Block>) {
    let hash = header.block_hash;
    if run.tree.blocks.contains_key(hash) {
        (run, None)
    } else {
        let awaiting = HsView {
            pending_headers: run.hs.pending_headers.insert(hash, header),
            ..run.hs
        };
        match bodies::block_among(run.hs.pushed_bodies, hash) {
            Some(block) => (
                state::now_holding(
                    run,
                    HsView {
                        pushed_bodies: run.hs.pushed_bodies.filter(state::is_other_block(hash)),
                        ..awaiting
                    },
                ),
                Some(block),
            ),
            None => (
                state::now_holding(
                    state::did(
                        run,
                        fetching::requested(
                            origin,
                            BlockDataRequest {
                                chain_id: header.chain_id,
                                view: header.view,
                                block_hash: hash,
                            },
                        ),
                    ),
                    HsView {
                        body_fetches: run.hs.body_fetches.filter(state::fetches_other(hash)).push(
                            Fetch {
                                hash,
                                view: header.view,
                                last_request: now,
                                retries: 0,
                                origin,
                            },
                        ),
                        ..awaiting
                    },
                ),
                None,
            ),
        }
    }
}

/// What a header does, and the body that it claims.
pub open spec fn header_handled<R: Roles>(
    run: Run,
    roles: R,
    header: ProposalHeader,
    origin: VerifyingKey,
    now: u64,
) -> (Run, Option<Block>) {
    let hash = header.block_hash;
    if run.hs.inline_header == Some(hash) && origin == run.hs.keypair.public_key() {
        (run, None)
    } else if equivocates(run.hs, header.view, origin, hash) {
        (caught(run, evidence_against(run.hs, header.view, origin, hash)), None)
    } else {
        let seen = noted(run, header.view, origin, hash);
        if !header_consistent(header) {
            (seen, None)
        } else if !header_safe(seen, header.justify) {
            (header_refused(seen, header, origin, now), None)
        } else {
            let (after, claimed) = body_sought(
                header_voted_on(seen, roles, header),
                header,
                origin,
                now,
            );
            (
                state::now_holding(after, HsView { status: state::heard(after.hs.status, origin), ..after.hs }),
                claimed,
            )
        }
    }
}

impl HotStuff {
    fn roll_back(
        &self,
        block: &CryptoHash,
        evidence: &EquivocationEvidence,
        block_tree: &mut BlockTreeSingleton,
        Ghost(start): Ghost<BlockTreeSingleton>,
        Ghost(run): Ghost<Run>,
    )
        requires
            state::reached(start, *self, *old(block_tree), run),
            tree::initialized(run.tree),
        ensures
            state::reached(start, *self, *final(block_tree), rolled_back(run, *block, *evidence)),
            tree::initialized(rolled_back(run, *block, *evidence).tree),
    {
        match block_tree.is_speculatively_committed(block) {
            Ok(true) => {
                let ghost t0 = *block_tree;
                let _ = block_tree.rollback_speculative_block(block);
                let ghost deeds = speculation::unspeculate(run.tree, *block);
                let ghost t1 = *block_tree;
                proof {
                    state::lemma_did(start, *self, t0, t1, run, deeds);
                }
                let ghost undone = state::did(run, deeds);
                let event = Event::RollbackBlock {
                    block: *block,
                    view: evidence.view,
                    equivocator: evidence.leader,
                };
                let ghost event_copy = event;
                block_tree.publish(event);
                let ghost t2 = *block_tree;
                proof {
                    state::lemma_did(
                        start,
                        *self,
                        t1,
                        t2,
                        undone,
                        seq![Deed::Other(Effect::Publish(event_copy))],
                    );
                }
                block_tree.emit(Effect::SpeculativeRollback(*block, *evidence));
                proof {
                    state::lemma_did(
                        start,
                        *self,
                        t2,
                        *block_tree,
                        state::told(undone, event_copy),
                        seq![Deed::Other(Effect::SpeculativeRollback(*block, *evidence))],
                    );
                }
            },
            _ => {},
        }
    }

    /// Act on evidence against a leader.
    pub(crate) fn catch_leader(
        &self,
        evidence: &EquivocationEvidence,
        block_tree: &mut BlockTreeSingleton,
        Ghost(start): Ghost<BlockTreeSingleton>,
        Ghost(run): Ghost<Run>,
    )
        requires
            state::reached(start, *self, *old(block_tree), run),
            tree::initialized(run.tree),
        ensures
            state::reached(start, *self, *final(block_tree), caught(run, *evidence)),
            tree::initialized(caught(run, *evidence).tree),
    {
        let ghost t0 = *block_tree;
        block_tree.publish(Event::EquivocationDetected { evidence: *evidence });
        let ghost event = Event::EquivocationDetected { evidence: *evidence };
        let ghost detected = state::told(run, event);
        let ghost t1 = *block_tree;
        proof {
            state::lemma_did(start, *self, t0, t1, run, seq![Deed::Other(Effect::Publish(event))]);
        }
        let _ = block_tree.store_equivocation_evidence(evidence);
        let ghost deeds = speculation::record_evidence(detected.tree, *evidence);
        proof {
            state::lemma_did(start, *self, t1, *block_tree, detected, deeds);
        }
        self.roll_back(
            &evidence.block_a,
            evidence,
            block_tree,
            Ghost(start),
            Ghost(state::did(detected, deeds)),
        );
    }

    /// Undo the speculative commit of the second block that a leader proposed in a view.
    pub(crate) fn roll_back_second(
        &self,
        evidence: &EquivocationEvidence,
        block_tree: &mut BlockTreeSingleton,
        Ghost(start): Ghost<BlockTreeSingleton>,
        Ghost(run): Ghost<Run>,
    )
        requires
            state::reached(start, *self, *old(block_tree), run),
            tree::initialized(run.tree),
        ensures
            state::reached(
                start,
                *self,
                *final(block_tree),
                rolled_back(run, evidence.block_b, *evidence),
            ),
            tree::initialized(rolled_back(run, evidence.block_b, *evidence).tree),
    {
        self.roll_back(&evidence.block_b, evidence, block_tree, Ghost(start), Ghost(run));
    }

    /// Take note of a proposal. Returns the evidence if the leader was seen to propose another
    /// block in the view.
    pub(crate) fn note_proposal(
        &mut self,
        view: ViewNumber,
        leader: &VerifyingKey,
        hash: CryptoHash,
        Ghost(start): Ghost<BlockTreeSingleton>,
        Ghost(tree): Ghost<BlockTreeSingleton>,
        Ghost(run): Ghost<Run>,
    ) -> (r: Option<EquivocationEvidence>)
        requires
            state::reached(start, *old(self), tree, run),
        ensures
            match r {
                Some(evidence) => equivocates(run.hs, view, *leader, hash) && evidence
                    == evidence_against(run.hs, view, *leader, hash) && *final(self) == *old(self),
                None => !equivocates(run.hs, view, *leader, hash) && state::reached(
                    start,
                    *final(self),
                    tree,
                    noted(run, view, *leader, hash),
                ),
            },
    {
        match self.first_proposal(view, leader) {
            Some(first) => {
                if first != hash {
                    Some(
                        EquivocationEvidence {
                            view,
                            leader: *leader,
                            block_a: first,
                            block_b: hash,
                        },
                    )
                } else {
                    None
                }
            },
            None => {
                self.seen_proposals.push(SeenProposal { view, leader: *leader, hash });
                None
            },
        }
    }

    fn is_header_safe(
        &self,
        justify: &PhaseCertificate,
        block_tree: &BlockTreeSingleton,
        Ghost(start): Ghost<BlockTreeSingleton>,
        Ghost(run): Ghost<Run>,
    ) -> (r: bool)
        requires
            state::reached(start, *self, *block_tree, run),
            tree::initialized(run.tree),
        ensures
            r == header_safe(run, *justify),
    {
        let is_correct = match justify.is_correct(block_tree) {
            Ok(is_correct) => is_correct,
            Err(_) => false,
        };
        if !is_correct || !justify.is_block_justify() {
            return false;
        }
        if self.pending_headers.contains_key(&justify.block) || self.pending_bodies.contains_key(
            &justify.block,
        ) {
            match safe_pc_lock_clause(justify, block_tree) {
                Ok(is_allowed) => is_allowed && (justify.chain_id.0 == self.config.chain_id.0
                    || justify.is_genesis_pc()),
                Err(_) => false,
            }
        } else {
            match safe_pc(justify, block_tree, self.config.chain_id) {
                Ok(is_safe) => is_safe,
                Err(_) => false,
            }
        }
    }

    fn refuse_header(
        &mut self,
        header: &ProposalHeader,
        origin: &VerifyingKey,
        now: u64,
        block_tree: &mut BlockTreeSingleton,
        Ghost(start): Ghost<BlockTreeSingleton>,
        Ghost(run): Ghost<Run>,
    )
        requires
            state::reached(start, *old(self), *old(block_tree), run),
            tree::initialized(run.tree),
        ensures
            state::reached(
                start,
                *final(self),
                *final(block_tree),
                header_refused(run, *header, *origin, now),
            ),
            tree::initialized(header_refused(run, *header, *origin, now).tree),
    {
        if !block_tree.contains(&header.justify.block) {
            let is_correct = match header.justify.is_correct(block_tree) {
                Ok(is_correct) => is_correct,
                Err(_) => false,
            };
            let is_asked_for = is_fetched(&self.body_fetches, &header.justify.block) || is_fetched(
                &self.justify_fetches,
                &header.justify.block,
            );
            self.sync_needed = true;
            let ghost flagged = state::now_holding(run, HsView { sync_needed: true, ..run.hs });
            if is_correct && !header.justify.is_genesis_pc() && !is_asked_for {
                self.request_justify(
                    header.justify.block,
                    header.justify.view,
                    *origin,
                    now,
                    block_tree,
                    Ghost(start),
                    Ghost(flagged),
                );
            }
        }
        self.hear(origin);
    }

    fn vote_on_header<R: Roles>(
        &mut self,
        header: &ProposalHeader,
        block_tree: &mut BlockTreeSingleton,
        roles: &R,
        Ghost(start): Ghost<BlockTreeSingleton>,
        Ghost(run): Ghost<Run>,
    )
        requires
            state::reached(start, *old(self), *old(block_tree), run),
            tree::initialized(run.tree),
        ensures
            state::reached(
                start,
                *final(self),
                *final(block_tree),
                header_voted_on(run, *roles, *header),
            ),
            tree::initialized(header_voted_on(run, *roles, *header).tree),
    {
        let ghost t0 = *block_tree;
        let _ = block_tree.update_locks_only(&header.justify, roles);
        let ghost deeds = updates::locks_only_deeds(run.tree, header.justify, *roles);
        proof {
            state::lemma_did(start, *self, t0, *block_tree, run, deeds);
        }
        self.refresh_collectors(block_tree, Ghost(start), Ghost(state::did(run, deeds)));
        let ghost locked = acting::refreshed(state::did(run, deeds));
        if self.is_allowed_to_vote(&header.justify, block_tree, roles, Ghost(start), Ghost(locked))
        {
            if !block_tree.contains(&header.block_hash) && !contains_hash(
                &self.header_voted,
                &header.block_hash,
            ) {
                self.header_voted.push(header.block_hash);
            }
            let ghost blind = state::now_holding(locked, self@);
            let phase = if header.has_validator_set_updates {
                Phase::Prepare
            } else {
                Phase::Generic
            };
            self.cast_vote(
                header.block_hash,
                phase,
                None,
                block_tree,
                roles,
                Ghost(start),
                Ghost(blind),
            );
        }
    }

    fn seek_body(
        &mut self,
        header: ProposalHeader,
        origin: &VerifyingKey,
        now: u64,
        block_tree: &mut BlockTreeSingleton,
        Ghost(start): Ghost<BlockTreeSingleton>,
        Ghost(run): Ghost<Run>,
    ) -> (r: Option<Block>)
        requires
            state::reached(start, *old(self), *old(block_tree), run),
            tree::initialized(run.tree),
        ensures
            state::reached(
                start,
                *final(self),
                *final(block_tree),
                body_sought(run, header, *origin, now).0,
            ),
            tree::initialized(body_sought(run, header, *origin, now).0.tree),
            r == body_sought(run, header, *origin, now).1,
    {
        let hash = header.block_hash;
        if block_tree.contains(&hash) {
            return None;
        }
        let claimed = find_block(&self.pushed_bodies, &hash);
        match &claimed {
            Some(_) => {
                self.pushed_bodies = without_block(&self.pushed_bodies, &hash);
            },
            None => {
                let request = BlockDataRequest {
                    chain_id: header.chain_id,
                    view: header.view,
                    block_hash: hash,
                };
                let ghost t0 = *block_tree;
                block_tree.emit(Effect::RequestBlockData(*origin, request));
                proof {
                    state::lemma_did(start, *self, t0, *block_tree, run, fetching::requested(*origin, request));
                }
                let mut fetches = without_fetch(&self.body_fetches, &hash);
                fetches.push(
                    Fetch {
                        hash,
                        view: header.view,
                        last_request: now,
                        retries: 0,
                        origin: *origin,
                    },
                );
                self.body_fetches = fetches;
            },
        }
        self.pending_headers.insert(hash, header);
        claimed
    }

    fn process_header<R: Roles>(
        &mut self,
        header: ProposalHeader,
        origin: &VerifyingKey,
        now: u64,
        block_tree: &mut BlockTreeSingleton,
        roles: &R,
        Ghost(start): Ghost<BlockTreeSingleton>,
        Ghost(run): Ghost<Run>,
    ) -> (r: Option<Block>)
        requires
            state::reached(start, *old(self), *old(block_tree), run),
            tree::initialized(run.tree),
        ensures
            state::reached(
                start,
                *final(self),
                *final(block_tree),
                header_handled(run, *roles, header, *origin, now).0,
            ),
            tree::initialized(header_handled(run, *roles, header, *origin, now).0.tree),
            r == header_handled(run, *roles, header, *origin, now).1,
    {
        let hash = header.block_hash;
        match self.inline_header {
            Some(inline) => {
                if inline == hash && *origin == self.config.keypair.public() {
                    return None;
                }
            },
            None => {},
        }
        match self.note_proposal(
            header.view,
            origin,
            hash,
            Ghost(start),
            Ghost(*block_tree),
            Ghost(run),
        ) {
            Some(evidence) => {
                self.catch_leader(&evidence, block_tree, Ghost(start), Ghost(run));
                return None;
            },
            None => {},
        }
        let ghost seen = noted(run, header.view, *origin, hash);
        if Block::hash(header.height, &header.justify, &header.data_hash) != hash {
            return None;
        }
        if !self.is_header_safe(&header.justify, block_tree, Ghost(start), Ghost(seen)) {
            self.refuse_header(&header, origin, now, block_tree, Ghost(start), Ghost(seen));
            return None;
        }
        self.vote_on_header(&header, block_tree, roles, Ghost(start), Ghost(seen));
        let ghost run1 = header_voted_on(seen, *roles, header);
        let claimed = self.seek_body(header, origin, now, block_tree, Ghost(start), Ghost(run1));
        self.hear(origin);
        claimed
    }

    /// Process a header up to the application's part in it: vote if it is safe, and ask for the
    /// body. Returns the body if it came before its header.
    pub fn handle_header<R: Roles>(
        &mut self,
        header: ProposalHeader,
        origin: &VerifyingKey,
        now: u64,
        block_tree: &mut BlockTreeSingleton,
        roles: &R,
    ) -> (r: Option<Block>)
        requires
            old(self).wf(),
            tree::initialized(old(block_tree)@),
        ensures
            state::reached(
                *old(block_tree),
                *final(self),
                *final(block_tree),
                header_handled(
                    state::begin(*old(self), *old(block_tree)),
                    *roles,
                    header,
                    *origin,
                    now,
                ).0,
            ),
            r == header_handled(
                state::begin(*old(self), *old(block_tree)),
                *roles,
                header,
                *origin,
                now,
            ).1,
            tree::initialized(final(block_tree)@),
    {
        let ghost run = state::begin(*self, *block_tree);
        proof {
            state::lemma_begin(*self, *block_tree);
        }
        self.process_header(header, origin, now, block_tree, roles, Ghost(*block_tree), Ghost(run))
    }

    /// Process a header: vote if it is safe, and obtain the body.
    pub fn on_receive_proposal_header<R: Roles, A: App>(
        &mut self,
        header: ProposalHeader,
        origin: &VerifyingKey,
        now: u64,
        block_tree: &mut BlockTreeSingleton,
        app: &mut A,
        roles: &R,
    ) -> (r: Result<(), HotStuffError>)
        requires
            old(self).wf(),
            tree::initialized(old(block_tree)@),
        ensures
            r is Ok,
            header_received(
                *old(self),
                *old(block_tree),
                *final(self),
                *final(block_tree),
                *roles,
                header,
                *origin,
                now,
            ),
            tree::initialized(final(block_tree)@),
    {
        let ghost start = *block_tree;
        let ghost run = state::begin(*self, *block_tree);
        let ghost (after, claim) = header_handled(run, *roles, header, *origin, now);
        match self.handle_header(header, origin, now, block_tree, roles) {
            Some(block) => {
                let (answers, end) = self.accept_body(
                    block,
                    block_tree,
                    app,
                    roles,
                    Ghost(start),
                    Ghost(after),
                );
                assert(bodies::body_accepted(after, *roles, block, answers@, end@));
            },
            None => {},
        }
        Ok(())
    }
}

/// What the arrival of a header does: what the header itself does, and then, where it claims a
/// body, the taking in of that body on the application's answers.
pub open spec fn header_received<R: Roles>(
    hs: HotStuff,
    tree: BlockTreeSingleton,
    hs_after: HotStuff,
    tree_after: BlockTreeSingleton,
    roles: R,
    header: ProposalHeader,
    origin: VerifyingKey,
    now: u64,
) -> bool {
    let (run, claimed) = header_handled(state::begin(hs, tree), roles, header, origin, now);
    match claimed {
        Some(block) => exists|answers: Seq<ValidateBlockResponse>, end: Run| #[trigger]
            bodies::body_accepted(run, roles, block, answers, end) && state::reached(
                tree,
                hs_after,
                tree_after,
                end,
            ),
        None => state::reached(tree, hs_after, tree_after, run),
    }
}

} // verus!

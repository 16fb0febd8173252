//! Messages of the HotStuff subprotocol.

use vstd::prelude::*;

use crate::codec;
use crate::codec::{encode_ne_message, encode_vote_message};
use crate::hotstuff::types::{NoEndorsementCertificate, Phase, PhaseCertificate};
use crate::pacemaker::TimeoutCertificate;
use crate::types::block::Block;
use crate::types::crypto_primitives::Keypair;
use crate::types::data_types::{
    BlockHeight, ChainID, CryptoHash, SignatureBytes, VerifyingKey, ViewNumber,
};

verus! {

/// A proposal of a block for a view.
#[derive(PartialEq, Eq, Debug)]
pub struct Proposal {
    pub chain_id: ChainID,
    pub view: ViewNumber,
    pub block: Block,
    /// The timeout certificate of the previous view, if that is what the proposal rests on.
    pub tc: Option<TimeoutCertificate>,
    /// Proof that the block which the proposal skips is safe to abandon.
    pub nec: Option<NoEndorsementCertificate>,
}

impl Clone for Proposal {
    fn clone(&self) -> (r: Self)
        ensures
            r == *self,
    {
        Proposal {
            chain_id: self.chain_id,
            view: self.view,
            block: self.block.clone(),
            tc: match &self.tc {
                Some(value) => Some(value.clone()),
                None => None,
            },
            nec: match &self.nec {
                Some(value) => Some(value.clone()),
                None => None,
            },
        }
    }
}

impl Proposal {
    /// Whether the proposal proposes again the block of a timed-out view's high tip.
    pub open spec fn reproposes(&self) -> bool {
        match self.tc {
            Some(tc) => tc.high_tip_is_winner,
            None => false,
        }
    }

    pub fn is_reproposal(&self) -> (r: bool)
        ensures
            r == self.reproposes(),
    {
        match &self.tc {
            Some(tc) => tc.high_tip_is_winner,
            None => false,
        }
    }
}

/// A request to vote for the next phase of a block that changes the validator set.
#[derive(PartialEq, Eq, Debug)]
pub struct Nudge {
    pub chain_id: ChainID,
    pub view: ViewNumber,
    pub justify: PhaseCertificate,
}

impl Clone for Nudge {
    fn clone(&self) -> (r: Self)
        ensures
            r == *self,
    {
        Nudge {
            chain_id: self.chain_id,
            view: self.view,
            justify: self.justify.clone(),
        }
    }
}

impl Nudge {
    /// A nudge carrying `justify`, which must be a prepare, precommit or commit certificate.
    pub fn new(chain_id: ChainID, view: ViewNumber, justify: PhaseCertificate) -> (r: Self)
        requires
            justify.justifies_nudge(),
        ensures
            r == (Nudge { chain_id, view, justify }),
    {
        Nudge { chain_id, view, justify }
    }
}

/// A vote for a block in a phase of a view.
#[derive(Clone, Copy, PartialEq, Eq, Debug)]
pub struct PhaseVote {
    pub chain_id: ChainID,
    pub view: ViewNumber,
    pub block: CryptoHash,
    pub phase: Phase,
    pub signature: SignatureBytes,
}

impl PhaseVote {
    /// What the vote signs.
    pub open spec fn message(&self) -> Seq<u8> {
        codec::vote_message(self.chain_id, self.view, self.block, self.phase)
    }

    /// Whether the vote was signed by `signer`.
    pub open spec fn signed_by(&self, signer: VerifyingKey) -> bool {
        signer.accepts(self.message(), self.signature)
    }

    /// A vote signed with `keypair`. The voter's own key accepts it.
    pub fn new(
        keypair: &Keypair,
        chain_id: ChainID,
        view: ViewNumber,
        block: CryptoHash,
        phase: Phase,
    ) -> (r: Self)
        ensures
            r.chain_id == chain_id,
            r.view == view,
            r.block == block,
            r.phase == phase,
            keypair.signs(codec::vote_message(chain_id, view, block, phase), r.signature),
            r.signed_by(keypair.public_key()),
    {
        let message = encode_vote_message(chain_id, view, &block, phase);
        let signature = keypair.sign(&message);
        PhaseVote { chain_id, view, block, phase, signature }
    }

    /// The bytes that the vote signs.
    pub fn message_bytes(&self) -> (r: Vec<u8>)
        ensures
            r@ == self.message(),
    {
        encode_vote_message(self.chain_id, self.view, &self.block, self.phase)
    }

    pub fn signature_bytes(&self) -> (r: SignatureBytes)
        ensures
            r == self.signature,
    {
        self.signature
    }

    /// Whether the vote was signed by `signer`.
    pub fn is_correct(&self, signer: &VerifyingKey) -> (r: bool)
        ensures
            r == self.signed_by(*signer),
    {
        signer.verify(&self.message_bytes(), &self.signature)
    }
}

/// What a replica tells the next leader when it leaves a view.
#[derive(PartialEq, Eq, Debug)]
pub struct NewView {
    pub chain_id: ChainID,
    pub view: ViewNumber,
    pub highest_pc: PhaseCertificate,
}

impl Clone for NewView {
    fn clone(&self) -> (r: Self)
        ensures
            r == *self,
    {
        NewView {
            chain_id: self.chain_id,
            view: self.view,
            highest_pc: self.highest_pc.clone(),
        }
    }
}

/// A request for the block of a timeout certificate's high tip.
#[derive(PartialEq, Eq, Debug)]
pub struct ProposalRequest {
    pub chain_id: ChainID,
    pub view: ViewNumber,
    pub tc: TimeoutCertificate,
}

impl Clone for ProposalRequest {
    fn clone(&self) -> (r: Self)
        ensures
            r == *self,
    {
        ProposalRequest {
            chain_id: self.chain_id,
            view: self.view,
            tc: self.tc.clone(),
        }
    }
}

/// The answer to a [`ProposalRequest`].
#[derive(PartialEq, Eq, Debug)]
pub struct ProposalResponse {
    pub chain_id: ChainID,
    pub view: ViewNumber,
    pub proposal: Proposal,
}

impl Clone for ProposalResponse {
    fn clone(&self) -> (r: Self)
        ensures
            r == *self,
    {
        ProposalResponse {
            chain_id: self.chain_id,
            view: self.view,
            proposal: self.proposal.clone(),
        }
    }
}

/// A request to testify that the receiver did not vote for the block of a high tip.
#[derive(PartialEq, Eq, Debug)]
pub struct NERequest {
    pub chain_id: ChainID,
    pub view: ViewNumber,
    pub tc: TimeoutCertificate,
}

impl Clone for NERequest {
    fn clone(&self) -> (r: Self)
        ensures
            r == *self,
    {
        NERequest {
            chain_id: self.chain_id,
            view: self.view,
            tc: self.tc.clone(),
        }
    }
}

/// Testimony that the sender did not vote for the block of a high tip.
#[derive(Clone, Copy, PartialEq, Eq, Debug)]
pub struct NEMessage {
    pub chain_id: ChainID,
    pub view: ViewNumber,
    pub high_tip_qc_view: ViewNumber,
    pub signature: SignatureBytes,
}

impl NEMessage {
    /// A testimony signed with `keypair`.
    pub fn new(
        keypair: &Keypair,
        chain_id: ChainID,
        view: ViewNumber,
        high_tip_qc_view: ViewNumber,
    ) -> (r: Self)
        ensures
            r.chain_id == chain_id,
            r.view == view,
            r.high_tip_qc_view == high_tip_qc_view,
            keypair.signs(codec::ne_message(view, high_tip_qc_view), r.signature),
    {
        let message = encode_ne_message(view, high_tip_qc_view);
        let signature = keypair.sign(&message);
        NEMessage { chain_id, view, high_tip_qc_view, signature }
    }
}

/// A proposal without the block's data.
#[derive(PartialEq, Eq, Debug)]
pub struct ProposalHeader {
    pub chain_id: ChainID,
    pub view: ViewNumber,
    pub block_hash: CryptoHash,
    pub height: BlockHeight,
    pub data_hash: CryptoHash,
    pub justify: PhaseCertificate,
    pub tc: Option<TimeoutCertificate>,
    pub nec: Option<NoEndorsementCertificate>,
    pub has_validator_set_updates: bool,
}

impl Clone for ProposalHeader {
    fn clone(&self) -> (r: Self)
        ensures
            r == *self,
    {
        ProposalHeader {
            chain_id: self.chain_id,
            view: self.view,
            block_hash: self.block_hash,
            height: self.height,
            data_hash: self.data_hash,
            justify: self.justify.clone(),
            tc: match &self.tc {
                Some(value) => Some(value.clone()),
                None => None,
            },
            nec: match &self.nec {
                Some(value) => Some(value.clone()),
                None => None,
            },
            has_validator_set_updates: self.has_validator_set_updates,
        }
    }
}

/// The header of a proposal.
pub open spec fn header_of(proposal: Proposal, has_validator_set_updates: bool) -> ProposalHeader {
    ProposalHeader {
        chain_id: proposal.chain_id,
        view: proposal.view,
        block_hash: proposal.block.hash,
        height: proposal.block.height,
        data_hash: proposal.block.data_hash,
        justify: proposal.block.justify,
        tc: proposal.tc,
        nec: proposal.nec,
        has_validator_set_updates,
    }
}

impl ProposalHeader {
    pub fn from_proposal(proposal: &Proposal, has_validator_set_updates: bool) -> (r: Self)
        ensures
            r == header_of(*proposal, has_validator_set_updates),
    {
        let copy = proposal.clone();
        ProposalHeader {
            chain_id: copy.chain_id,
            view: copy.view,
            block_hash: copy.block.hash,
            height: copy.block.height,
            data_hash: copy.block.data_hash,
            justify: copy.block.justify,
            tc: copy.tc,
            nec: copy.nec,
            has_validator_set_updates,
        }
    }
}

/// A request for the body of a block.
#[derive(Clone, Copy, PartialEq, Eq, Debug)]
pub struct BlockDataRequest {
    pub chain_id: ChainID,
    pub view: ViewNumber,
    pub block_hash: CryptoHash,
}

/// The body of a block.
#[derive(PartialEq, Eq, Debug)]
pub struct BlockDataResponse {
    pub view: ViewNumber,
    pub block: Block,
}

impl Clone for BlockDataResponse {
    fn clone(&self) -> (r: Self)
        ensures
            r == *self,
    {
        BlockDataResponse {
            view: self.view,
            block: self.block.clone(),
        }
    }
}

/// A message of the HotStuff subprotocol.
#[derive(PartialEq, Eq, Debug)]
pub enum HotStuffMessage {
    Proposal(Proposal),
    Nudge(Nudge),
    PhaseVote(PhaseVote),
    NewView(NewView),
    ProposalRequest(ProposalRequest),
    ProposalResponse(ProposalResponse),
    NERequest(NERequest),
    NE(NEMessage),
    ProposalHeader(ProposalHeader),
    BlockDataRequest(BlockDataRequest),
    BlockDataResponse(BlockDataResponse),
}

impl Clone for HotStuffMessage {
    fn clone(&self) -> (r: Self)
        ensures
            r == *self,
    {
        match self {
            HotStuffMessage::Proposal(m) => HotStuffMessage::Proposal(m.clone()),
            HotStuffMessage::Nudge(m) => HotStuffMessage::Nudge(m.clone()),
            HotStuffMessage::PhaseVote(m) => HotStuffMessage::PhaseVote(*m),
            HotStuffMessage::NewView(m) => HotStuffMessage::NewView(m.clone()),
            HotStuffMessage::ProposalRequest(m) => HotStuffMessage::ProposalRequest(m.clone()),
            HotStuffMessage::ProposalResponse(m) => HotStuffMessage::ProposalResponse(m.clone()),
            HotStuffMessage::NERequest(m) => HotStuffMessage::NERequest(m.clone()),
            HotStuffMessage::NE(m) => HotStuffMessage::NE(*m),
            HotStuffMessage::ProposalHeader(m) => HotStuffMessage::ProposalHeader(m.clone()),
            HotStuffMessage::BlockDataRequest(m) => HotStuffMessage::BlockDataRequest(*m),
            HotStuffMessage::BlockDataResponse(m) => HotStuffMessage::BlockDataResponse(m.clone()),
        }
    }
}

/// The chain that a message is for. The body of a block has no chain of its own and goes by its
/// justification.
pub open spec fn message_chain_id(message: HotStuffMessage) -> ChainID {
    match message {
        HotStuffMessage::Proposal(m) => m.chain_id,
        HotStuffMessage::Nudge(m) => m.chain_id,
        HotStuffMessage::PhaseVote(m) => m.chain_id,
        HotStuffMessage::NewView(m) => m.chain_id,
        HotStuffMessage::ProposalRequest(m) => m.chain_id,
        HotStuffMessage::ProposalResponse(m) => m.chain_id,
        HotStuffMessage::NERequest(m) => m.chain_id,
        HotStuffMessage::NE(m) => m.chain_id,
        HotStuffMessage::ProposalHeader(m) => m.chain_id,
        HotStuffMessage::BlockDataRequest(m) => m.chain_id,
        HotStuffMessage::BlockDataResponse(m) => m.block.justify.chain_id,
    }
}

/// The view that a message is for.
pub open spec fn message_view(message: HotStuffMessage) -> ViewNumber {
    match message {
        HotStuffMessage::Proposal(m) => m.view,
        HotStuffMessage::Nudge(m) => m.view,
        HotStuffMessage::PhaseVote(m) => m.view,
        HotStuffMessage::NewView(m) => m.view,
        HotStuffMessage::ProposalRequest(m) => m.view,
        HotStuffMessage::ProposalResponse(m) => m.view,
        HotStuffMessage::NERequest(m) => m.view,
        HotStuffMessage::NE(m) => m.view,
        HotStuffMessage::ProposalHeader(m) => m.view,
        HotStuffMessage::BlockDataRequest(m) => m.view,
        HotStuffMessage::BlockDataResponse(m) => m.view,
    }
}

/// Whether a message is part of fetching block bodies, which is of use in every view.
pub open spec fn carries_block_data(message: HotStuffMessage) -> bool {
    message is BlockDataRequest || message is BlockDataResponse || message is ProposalHeader
}

/// The number of bytes that the payload of a message takes in memory, without what it points to.
pub open spec fn payload_size(message: HotStuffMessage) -> nat {
    match message {
        HotStuffMessage::Proposal(m) => vstd::layout::size_of::<Proposal>(),
        HotStuffMessage::Nudge(m) => vstd::layout::size_of::<Nudge>(),
        HotStuffMessage::PhaseVote(m) => vstd::layout::size_of::<PhaseVote>(),
        HotStuffMessage::NewView(m) => vstd::layout::size_of::<NewView>(),
        HotStuffMessage::ProposalRequest(m) => vstd::layout::size_of::<ProposalRequest>(),
        HotStuffMessage::ProposalResponse(m) => vstd::layout::size_of::<ProposalResponse>(),
        HotStuffMessage::NERequest(m) => vstd::layout::size_of::<NERequest>(),
        HotStuffMessage::NE(m) => vstd::layout::size_of::<NEMessage>(),
        HotStuffMessage::ProposalHeader(m) => vstd::layout::size_of::<ProposalHeader>(),
        HotStuffMessage::BlockDataRequest(m) => vstd::layout::size_of::<BlockDataRequest>(),
        HotStuffMessage::BlockDataResponse(m) => vstd::layout::size_of::<BlockDataResponse>(),
    }
}

/// The number of bytes that a message counts for where messages are kept: those that its payload
/// takes, and one at least, so that a limit on bytes is a limit on messages.
pub open spec fn message_size(message: HotStuffMessage) -> nat {
    if payload_size(message) > 0 {
        payload_size(message)
    } else {
        1
    }
}

impl HotStuffMessage {
    pub fn chain_id(&self) -> (r: ChainID)
        ensures
            r == message_chain_id(*self),
    {
        match self {
            HotStuffMessage::Proposal(m) => m.chain_id,
            HotStuffMessage::Nudge(m) => m.chain_id,
            HotStuffMessage::PhaseVote(m) => m.chain_id,
            HotStuffMessage::NewView(m) => m.chain_id,
            HotStuffMessage::ProposalRequest(m) => m.chain_id,
            HotStuffMessage::ProposalResponse(m) => m.chain_id,
            HotStuffMessage::NERequest(m) => m.chain_id,
            HotStuffMessage::NE(m) => m.chain_id,
            HotStuffMessage::ProposalHeader(m) => m.chain_id,
            HotStuffMessage::BlockDataRequest(m) => m.chain_id,
            HotStuffMessage::BlockDataResponse(m) => m.block.justify.chain_id,
        }
    }

    pub fn view(&self) -> (r: ViewNumber)
        ensures
            r == message_view(*self),
    {
        match self {
            HotStuffMessage::Proposal(m) => m.view,
            HotStuffMessage::Nudge(m) => m.view,
            HotStuffMessage::PhaseVote(m) => m.view,
            HotStuffMessage::NewView(m) => m.view,
            HotStuffMessage::ProposalRequest(m) => m.view,
            HotStuffMessage::ProposalResponse(m) => m.view,
            HotStuffMessage::NERequest(m) => m.view,
            HotStuffMessage::NE(m) => m.view,
            HotStuffMessage::ProposalHeader(m) => m.view,
            HotStuffMessage::BlockDataRequest(m) => m.view,
            HotStuffMessage::BlockDataResponse(m) => m.view,
        }
    }

    pub fn is_block_data_msg(&self) -> (r: bool)
        ensures
            r == carries_block_data(*self),
    {
        match self {
            HotStuffMessage::BlockDataRequest(_) => true,
            HotStuffMessage::BlockDataResponse(_) => true,
            HotStuffMessage::ProposalHeader(_) => true,
            _ => false,
        }
    }

    /// The number of bytes that the message counts for where messages are kept.
    pub fn size(&self) -> (r: u64)
        ensures
            r == message_size(*self),
            r > 0,
    {
        let size: usize = match self {
            HotStuffMessage::Proposal(_) => std::mem::size_of::<Proposal>(),
            HotStuffMessage::Nudge(_) => std::mem::size_of::<Nudge>(),
            HotStuffMessage::PhaseVote(_) => std::mem::size_of::<PhaseVote>(),
            HotStuffMessage::NewView(_) => std::mem::size_of::<NewView>(),
            HotStuffMessage::ProposalRequest(_) => std::mem::size_of::<ProposalRequest>(),
            HotStuffMessage::ProposalResponse(_) => std::mem::size_of::<ProposalResponse>(),
            HotStuffMessage::NERequest(_) => std::mem::size_of::<NERequest>(),
            HotStuffMessage::NE(_) => std::mem::size_of::<NEMessage>(),
            HotStuffMessage::ProposalHeader(_) => std::mem::size_of::<ProposalHeader>(),
            HotStuffMessage::BlockDataRequest(_) => std::mem::size_of::<BlockDataRequest>(),
            HotStuffMessage::BlockDataResponse(_) => std::mem::size_of::<BlockDataResponse>(),
        };
        if size > 0 {
            size as u64
        } else {
            1
        }
    }
}

impl From<Proposal> for HotStuffMessage {
    fn from(message: Proposal) -> (r: Self) {
        HotStuffMessage::Proposal(message)
    }
}

impl vstd::std_specs::convert::FromSpecImpl<Proposal> for HotStuffMessage {
    open spec fn obeys_from_spec() -> bool {
        true
    }

    open spec fn from_spec(message: Proposal) -> Self {
        HotStuffMessage::Proposal(message)
    }
}

impl From<Nudge> for HotStuffMessage {
    fn from(message: Nudge) -> (r: Self) {
        HotStuffMessage::Nudge(message)
    }
}

impl vstd::std_specs::convert::FromSpecImpl<Nudge> for HotStuffMessage {
    open spec fn obeys_from_spec() -> bool {
        true
    }

    open spec fn from_spec(message: Nudge) -> Self {
        HotStuffMessage::Nudge(message)
    }
}

impl From<PhaseVote> for HotStuffMessage {
    fn from(message: PhaseVote) -> (r: Self) {
        HotStuffMessage::PhaseVote(message)
    }
}

impl vstd::std_specs::convert::FromSpecImpl<PhaseVote> for HotStuffMessage {
    open spec fn obeys_from_spec() -> bool {
        true
    }

    open spec fn from_spec(message: PhaseVote) -> Self {
        HotStuffMessage::PhaseVote(message)
    }
}

impl From<NewView> for HotStuffMessage {
    fn from(message: NewView) -> (r: Self) {
        HotStuffMessage::NewView(message)
    }
}

impl vstd::std_specs::convert::FromSpecImpl<NewView> for HotStuffMessage {
    open spec fn obeys_from_spec() -> bool {
        true
    }

    open spec fn from_spec(message: NewView) -> Self {
        HotStuffMessage::NewView(message)
    }
}

impl From<ProposalRequest> for HotStuffMessage {
    fn from(message: ProposalRequest) -> (r: Self) {
        HotStuffMessage::ProposalRequest(message)
    }
}

impl vstd::std_specs::convert::FromSpecImpl<ProposalRequest> for HotStuffMessage {
    open spec fn obeys_from_spec() -> bool {
        true
    }

    open spec fn from_spec(message: ProposalRequest) -> Self {
        HotStuffMessage::ProposalRequest(message)
    }
}

impl From<ProposalResponse> for HotStuffMessage {
    fn from(message: ProposalResponse) -> (r: Self) {
        HotStuffMessage::ProposalResponse(message)
    }
}

impl vstd::std_specs::convert::FromSpecImpl<ProposalResponse> for HotStuffMessage {
    open spec fn obeys_from_spec() -> bool {
        true
    }

    open spec fn from_spec(message: ProposalResponse) -> Self {
        HotStuffMessage::ProposalResponse(message)
    }
}

impl From<NERequest> for HotStuffMessage {
    fn from(message: NERequest) -> (r: Self) {
        HotStuffMessage::NERequest(message)
    }
}

impl vstd::std_specs::convert::FromSpecImpl<NERequest> for HotStuffMessage {
    open spec fn obeys_from_spec() -> bool {
        true
    }

    open spec fn from_spec(message: NERequest) -> Self {
        HotStuffMessage::NERequest(message)
    }
}

impl From<NEMessage> for HotStuffMessage {
    fn from(message: NEMessage) -> (r: Self) {
        HotStuffMessage::NE(message)
    }
}

impl vstd::std_specs::convert::FromSpecImpl<NEMessage> for HotStuffMessage {
    open spec fn obeys_from_spec() -> bool {
        true
    }

    open spec fn from_spec(message: NEMessage) -> Self {
        HotStuffMessage::NE(message)
    }
}

impl From<ProposalHeader> for HotStuffMessage {
    fn from(message: ProposalHeader) -> (r: Self) {
        HotStuffMessage::ProposalHeader(message)
    }
}

impl vstd::std_specs::convert::FromSpecImpl<ProposalHeader> for HotStuffMessage {
    open spec fn obeys_from_spec() -> bool {
        true
    }

    open spec fn from_spec(message: ProposalHeader) -> Self {
        HotStuffMessage::ProposalHeader(message)
    }
}

impl From<BlockDataRequest> for HotStuffMessage {
    fn from(message: BlockDataRequest) -> (r: Self) {
        HotStuffMessage::BlockDataRequest(message)
    }
}

impl vstd::std_specs::convert::FromSpecImpl<BlockDataRequest> for HotStuffMessage {
    open spec fn obeys_from_spec() -> bool {
        true
    }

    open spec fn from_spec(message: BlockDataRequest) -> Self {
        HotStuffMessage::BlockDataRequest(message)
    }
}

impl From<BlockDataResponse> for HotStuffMessage {
    fn from(message: BlockDataResponse) -> (r: Self) {
        HotStuffMessage::BlockDataResponse(message)
    }
}

impl vstd::std_specs::convert::FromSpecImpl<BlockDataResponse> for HotStuffMessage {
    open spec fn obeys_from_spec() -> bool {
        true
    }

    open spec fn from_spec(message: BlockDataResponse) -> Self {
        HotStuffMessage::BlockDataResponse(message)
    }
}

/// Whether two messages are of one kind.
pub open spec fn same_kind(a: HotStuffMessage, b: HotStuffMessage) -> bool {
    match (a, b) {
        (HotStuffMessage::Proposal(_), HotStuffMessage::Proposal(_)) => true,
        (HotStuffMessage::Nudge(_), HotStuffMessage::Nudge(_)) => true,
        (HotStuffMessage::PhaseVote(_), HotStuffMessage::PhaseVote(_)) => true,
        (HotStuffMessage::NewView(_), HotStuffMessage::NewView(_)) => true,
        (HotStuffMessage::ProposalRequest(_), HotStuffMessage::ProposalRequest(_)) => true,
        (HotStuffMessage::ProposalResponse(_), HotStuffMessage::ProposalResponse(_)) => true,
        (HotStuffMessage::NERequest(_), HotStuffMessage::NERequest(_)) => true,
        (HotStuffMessage::NE(_), HotStuffMessage::NE(_)) => true,
        (HotStuffMessage::ProposalHeader(_), HotStuffMessage::ProposalHeader(_)) => true,
        (HotStuffMessage::BlockDataRequest(_), HotStuffMessage::BlockDataRequest(_)) => true,
        (HotStuffMessage::BlockDataResponse(_), HotStuffMessage::BlockDataResponse(_)) => true,
        _ => false,
    }
}

/// The size of a message is above zero and goes by its kind, whatever it holds.
pub proof fn law_sizes_go_by_the_kind(a: HotStuffMessage, b: HotStuffMessage)
    requires
        same_kind(a, b),
    ensures
        message_size(a) == message_size(b),
        message_size(a) > 0,
{
}

} // verus!

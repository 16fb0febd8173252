//! The byte encoding of what is hashed, signed and sent.
//!
//! Integers are little-endian. A byte array is its bytes. A vector is the number of its items as
//! a `u32`, then the items. An option is a zero byte, or a one byte and the value. An enum is the
//! index of its variant as a byte, then the variant's fields. A struct is its fields in order.

use vstd::prelude::*;

use crate::hotstuff::types::{Phase, PhaseCertificate};
use crate::types::data_types::{BlockHeight, ChainID, CryptoHash, SignatureBytes, ViewNumber};

verus! {

/// `borsh::BorshSerialize::try_to_vec` of a `u32`. Claimed: it gives the four bytes of the number,
/// least significant first, and never fails.
#[verifier::external_body]
fn u32_bytes(value: u32) -> (r: Vec<u8>)
    ensures
        r@ == vstd::bytes::spec_u32_to_le_bytes(value),
{
    borsh::BorshSerialize::try_to_vec(&value).unwrap()
}

/// `borsh::BorshSerialize::try_to_vec` of a `u64`. Claimed: it gives the eight bytes of the
/// number, least significant first, and never fails.
#[verifier::external_body]
fn u64_bytes(value: u64) -> (r: Vec<u8>)
    ensures
        r@ == vstd::bytes::spec_u64_to_le_bytes(value),
{
    borsh::BorshSerialize::try_to_vec(&value).unwrap()
}

pub(crate) fn put_u32(out: &mut Vec<u8>, value: u32)
    ensures
        final(out)@ == old(out)@ + vstd::bytes::spec_u32_to_le_bytes(value),
{
    let mut bytes = u32_bytes(value);
    out.append(&mut bytes);
}

pub(crate) fn put_u64(out: &mut Vec<u8>, value: u64)
    ensures
        final(out)@ == old(out)@ + vstd::bytes::spec_u64_to_le_bytes(value),
{
    let mut bytes = u64_bytes(value);
    out.append(&mut bytes);
}

pub(crate) fn put_bytes<const N: usize>(out: &mut Vec<u8>, bytes: &[u8; N])
    ensures
        final(out)@ == old(out)@ + bytes@,
{
    let ghost before = out@;
    let mut i: usize = 0;
    while i < N
        invariant
            i <= N,
            bytes@.len() == N,
            out@ =~= before + bytes@.take(i as int),
        decreases N - i,
    {
        out.push(bytes[i]);
        i = i + 1;
    }
    assert(bytes@.take(N as int) =~= bytes@);
}

/// The byte that stands for a phase.
pub open spec fn phase_tag(phase: Phase) -> u8 {
    match phase {
        Phase::Generic => 0,
        Phase::Prepare => 1,
        Phase::Precommit => 2,
        Phase::Commit => 3,
        Phase::Decide => 4,
    }
}

pub(crate) fn encode_phase(phase: Phase) -> (r: u8)
    ensures
        r == phase_tag(phase),
{
    match phase {
        Phase::Generic => 0,
        Phase::Prepare => 1,
        Phase::Precommit => 2,
        Phase::Commit => 3,
        Phase::Decide => 4,
    }
}

/// What a phase vote signs: chain, view, block and phase.
pub open spec fn vote_message(
    chain_id: ChainID,
    view: ViewNumber,
    block: CryptoHash,
    phase: Phase,
) -> Seq<u8> {
    vstd::bytes::spec_u64_to_le_bytes(chain_id.0) + vstd::bytes::spec_u64_to_le_bytes(view.0) + block.bytes@
        + seq![phase_tag(phase)]
}

/// The bytes that a phase vote signs.
pub fn encode_vote_message(
    chain_id: ChainID,
    view: ViewNumber,
    block: &CryptoHash,
    phase: Phase,
) -> (r: Vec<u8>)
    ensures
        r@ == vote_message(chain_id, view, *block, phase),
{
    let mut out: Vec<u8> = Vec::new();
    put_u64(&mut out, chain_id.0);
    put_u64(&mut out, view.0);
    put_bytes(&mut out, &block.bytes);
    out.push(encode_phase(phase));
    assert(out@ =~= vote_message(chain_id, view, *block, phase));
    out
}

/// What a no-endorsement message signs: the view and the view of the high tip's certificate.
pub open spec fn ne_message(view: ViewNumber, high_tip_qc_view: ViewNumber) -> Seq<u8> {
    vstd::bytes::spec_u64_to_le_bytes(view.0) + vstd::bytes::spec_u64_to_le_bytes(high_tip_qc_view.0)
}

/// The bytes that a no-endorsement message signs.
pub fn encode_ne_message(view: ViewNumber, high_tip_qc_view: ViewNumber) -> (r: Vec<u8>)
    ensures
        r@ == ne_message(view, high_tip_qc_view),
{
    let mut out: Vec<u8> = Vec::new();
    put_u64(&mut out, view.0);
    put_u64(&mut out, high_tip_qc_view.0);
    assert(out@ =~= ne_message(view, high_tip_qc_view));
    out
}

/// The encoding of an optional signature.
pub open spec fn signature_bytes(signature: Option<SignatureBytes>) -> Seq<u8> {
    match signature {
        None => seq![0u8],
        Some(s) => seq![1u8] + s.bytes@,
    }
}

/// The encodings of optional signatures, one after another.
pub open spec fn signatures_bytes(signatures: Seq<Option<SignatureBytes>>) -> Seq<u8>
    decreases signatures.len(),
{
    if signatures.len() == 0 {
        Seq::<u8>::empty()
    } else {
        signatures_bytes(signatures.drop_last()) + signature_bytes(signatures.last())
    }
}

/// The encoding of a signature set.
pub open spec fn signature_set_bytes(signatures: Seq<Option<SignatureBytes>>) -> Seq<u8> {
    vstd::bytes::spec_u32_to_le_bytes(signatures.len() as u32) + signatures_bytes(signatures)
}

pub(crate) fn put_signatures(out: &mut Vec<u8>, signatures: &Vec<Option<SignatureBytes>>)
    ensures
        final(out)@ == old(out)@ + signature_set_bytes(signatures@),
{
    let ghost before = out@;
    put_u32(out, #[verifier::truncate] (signatures.len() as u32));
    let ghost start = out@;
    let mut i: usize = 0;
    assert(signatures@.take(0) =~= Seq::<Option<SignatureBytes>>::empty());
    assert(start + Seq::<u8>::empty() =~= start);
    while i < signatures.len()
        invariant
            i <= signatures@.len(),
            out@ == start + signatures_bytes(signatures@.take(i as int)),
        decreases signatures@.len() - i,
    {
        assert(signatures@.take(i + 1).drop_last() =~= signatures@.take(i as int));
        let ghost prefix = out@;
        match &signatures[i] {
            None => {
                out.push(0);
            },
            Some(signature) => {
                out.push(1);
                put_bytes(out, &signature.bytes);
            },
        }
        assert(out@ =~= prefix + signature_bytes(signatures@[i as int]));
        i = i + 1;
        assert(out@ =~= start + signatures_bytes(signatures@.take(i as int)));
    }
    assert(signatures@.take(i as int) =~= signatures@);
    assert(out@ =~= before + signature_set_bytes(signatures@));
}

/// The encoding of a phase certificate.
pub open spec fn pc_bytes(pc: PhaseCertificate) -> Seq<u8> {
    vstd::bytes::spec_u64_to_le_bytes(pc.chain_id.0) + vstd::bytes::spec_u64_to_le_bytes(pc.view.0) + pc.block.bytes@
        + seq![phase_tag(pc.phase)] + signature_set_bytes(pc.signatures@)
}

pub(crate) fn put_pc(out: &mut Vec<u8>, pc: &PhaseCertificate)
    ensures
        final(out)@ == old(out)@ + pc_bytes(*pc),
{
    let ghost before = out@;
    put_u64(out, pc.chain_id.0);
    put_u64(out, pc.view.0);
    put_bytes(out, &pc.block.bytes);
    out.push(encode_phase(pc.phase));
    put_signatures(out, &*pc.signatures.signatures);
    assert(out@ =~= before + pc_bytes(*pc));
}

/// What a block's hash is taken of: height, justification and data hash.
pub open spec fn block_preimage(
    height: BlockHeight,
    justify: PhaseCertificate,
    data_hash: CryptoHash,
) -> Seq<u8> {
    vstd::bytes::spec_u64_to_le_bytes(height.0) + pc_bytes(justify) + data_hash.bytes@
}

/// The bytes that a block's hash is taken of.
pub fn encode_block_preimage(
    height: BlockHeight,
    justify: &PhaseCertificate,
    data_hash: &CryptoHash,
) -> (r: Vec<u8>)
    ensures
        r@ == block_preimage(height, *justify, *data_hash),
{
    let mut out: Vec<u8> = Vec::new();
    put_u64(&mut out, height.0);
    put_pc(&mut out, justify);
    put_bytes(&mut out, &data_hash.bytes);
    assert(out@ =~= block_preimage(height, *justify, *data_hash));
    out
}

/// What a sync server signs when it advertises a height: chain and height.
pub open spec fn advertisement(chain_id: ChainID, height: BlockHeight) -> Seq<u8> {
    vstd::bytes::spec_u64_to_le_bytes(chain_id.0) + vstd::bytes::spec_u64_to_le_bytes(height.0)
}

/// The bytes that a sync server signs when it advertises a height.
pub fn encode_advertisement(chain_id: ChainID, height: BlockHeight) -> (r: Vec<u8>)
    ensures
        r@ == advertisement(chain_id, height),
{
    let mut out: Vec<u8> = Vec::new();
    put_u64(&mut out, chain_id.0);
    put_u64(&mut out, height.0);
    assert(out@ =~= advertisement(chain_id, height));
    out
}

} // verus!

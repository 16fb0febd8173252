//! How messages are written as bytes and read back. The encoding is that of [`crate::codec`]. Every
//! encoding can be read in one way only.

use vstd::prelude::*;

use std::sync::Arc;

use crate::codec;
use crate::codec::{encode_phase, put_bytes, put_u32, put_u64};
use crate::hotstuff::messages::{BlockDataRequest, BlockDataResponse, Proposal, ProposalHeader};
use crate::hotstuff::types::{NoEndorsementCertificate, Phase, PhaseCertificate};
use crate::pacemaker::{TimeoutCertificate, TipInfo, VoterMetadata};
use crate::types::block::Block;
use crate::types::data_types::{
    BlockHeight, Bytes, ChainID, CryptoHash, Data, Datum, SignatureBytes, SignatureSet, ViewNumber,
};

verus! {

/// `borsh::BorshDeserialize::try_from_slice` for a `u64`, of eight bytes. Claimed: it does not fail
/// and gives the number whose bytes these are, least significant first.
#[verifier::external_body]
pub(crate) fn read_u64(bytes: &Vec<u8>, at: usize) -> (r: u64)
    requires
        at + 8 <= bytes@.len(),
    ensures
        vstd::bytes::spec_u64_to_le_bytes(r) == bytes@.subrange(at as int, at + 8),
{
    borsh::BorshDeserialize::try_from_slice(&bytes[at..at + 8]).unwrap()
}

/// `borsh::BorshDeserialize::try_from_slice` for a `u32`, of four bytes. Claimed: it does not fail
/// and gives the number whose bytes these are, least significant first.
#[verifier::external_body]
fn read_u32(bytes: &Vec<u8>, at: usize) -> (r: u32)
    requires
        at + 4 <= bytes@.len(),
    ensures
        vstd::bytes::spec_u32_to_le_bytes(r) == bytes@.subrange(at as int, at + 4),
{
    borsh::BorshDeserialize::try_from_slice(&bytes[at..at + 4]).unwrap()
}

/// Read a hash.
pub(crate) fn read_hash(bytes: &Vec<u8>, at: usize) -> (r: CryptoHash)
    requires
        at + 32 <= bytes@.len(),
    ensures
        r.bytes@ == bytes@.subrange(at as int, at + 32),
{
    let len: usize = bytes.len();
    let mut out: [u8; 32] = [0u8; 32];
    let mut i: usize = 0;
    while i < 32
        invariant
            i <= 32,
            len == bytes@.len(),
            at + 32 <= bytes@.len(),
            forall|j: int| 0 <= j < i ==> out@[j] == bytes@[at + j],
        decreases 32 - i,
    {
        out[i] = bytes[at + i];
        i = i + 1;
    }
    assert(out@ =~= bytes@.subrange(at as int, at + 32));
    CryptoHash { bytes: out }
}

/// Read a signature.
fn read_signature(bytes: &Vec<u8>, at: usize) -> (r: SignatureBytes)
    requires
        at + 64 <= bytes@.len(),
    ensures
        r.bytes@ == bytes@.subrange(at as int, at + 64),
{
    let len: usize = bytes.len();
    let mut out: [u8; 64] = [0u8; 64];
    let mut i: usize = 0;
    while i < 64
        invariant
            i <= 64,
            len == bytes@.len(),
            at + 64 <= bytes@.len(),
            forall|j: int| 0 <= j < i ==> out@[j] == bytes@[at + j],
        decreases 64 - i,
    {
        out[i] = bytes[at + i];
        i = i + 1;
    }
    assert(out@ =~= bytes@.subrange(at as int, at + 64));
    SignatureBytes { bytes: out }
}

/// Two heads of one length before the same bytes are the same.
pub(crate) proof fn lemma_head(a: Seq<u8>, ra: Seq<u8>, b: Seq<u8>, rb: Seq<u8>)
    requires
        a.len() == b.len(),
        a + ra == b + rb,
    ensures
        a == b,
        ra == rb,
{
    assert forall|i: int| 0 <= i < a.len() implies a[i] == b[i] by {
        assert((a + ra)[i] == a[i]);
        assert((b + rb)[i] == b[i]);
    }
    assert(a =~= b);
    assert((a + ra).len() == a.len() + ra.len());
    assert((b + rb).len() == b.len() + rb.len());
    assert forall|i: int| 0 <= i < ra.len() implies ra[i] == rb[i] by {
        assert((a + ra)[a.len() + i] == ra[i]);
        assert((b + rb)[b.len() + i] == rb[i]);
    }
    assert(ra =~= rb);
}

/// Numbers with the same bytes are the same.
pub(crate) proof fn lemma_u64(a: u64, b: u64)
    ensures
        vstd::bytes::spec_u64_to_le_bytes(a).len() == 8,
        vstd::bytes::spec_u64_to_le_bytes(a) == vstd::bytes::spec_u64_to_le_bytes(b) ==> a == b,
{
    vstd::bytes::lemma_auto_spec_u64_to_from_le_bytes();
}

/// Numbers with the same bytes are the same.
pub(crate) proof fn lemma_u32(a: u32, b: u32)
    ensures
        vstd::bytes::spec_u32_to_le_bytes(a).len() == 4,
        vstd::bytes::spec_u32_to_le_bytes(a) == vstd::bytes::spec_u32_to_le_bytes(b) ==> a == b,
{
    vstd::bytes::lemma_auto_spec_u32_to_from_le_bytes();
    assert(vstd::bytes::spec_u32_to_le_bytes(a).len() == 4);
    assert(vstd::bytes::spec_u32_to_le_bytes(b).len() == 4);
}

/// The encodings of items, one after another.
pub open spec fn list_bytes<T>(items: Seq<T>, item: spec_fn(T) -> Seq<u8>) -> Seq<u8>
    decreases items.len(),
{
    if items.len() == 0 {
        Seq::<u8>::empty()
    } else {
        list_bytes(items.drop_last(), item) + item(items.last())
    }
}

/// Whether the encoding of an item can be read in one way only.
pub open spec fn reads_uniquely<T>(
    item: spec_fn(T) -> Seq<u8>,
    fits: spec_fn(T) -> bool,
) -> bool {
    forall|x: T, rx: Seq<u8>, y: T, ry: Seq<u8>|
        #![trigger item(x) + rx, item(y) + ry]
        fits(x) && fits(y) && item(x) + rx == item(y) + ry ==> item(x) == item(y) && rx == ry
}

/// Whether all of `items` fit.
pub open spec fn all_fit<T>(items: Seq<T>, fits: spec_fn(T) -> bool) -> bool {
    forall|i: int| 0 <= i < items.len() ==> fits(#[trigger] items[i])
}

/// The encoding of a list of one length can be read in one way only.
proof fn lemma_list<T>(
    a: Seq<T>,
    ra: Seq<u8>,
    b: Seq<T>,
    rb: Seq<u8>,
    item: spec_fn(T) -> Seq<u8>,
    fits: spec_fn(T) -> bool,
)
    requires
        a.len() == b.len(),
        all_fit(a, fits),
        all_fit(b, fits),
        reads_uniquely(item, fits),
        list_bytes(a, item) + ra == list_bytes(b, item) + rb,
    ensures
        list_bytes(a, item) == list_bytes(b, item),
        ra == rb,
        forall|i: int| 0 <= i < a.len() ==> item(#[trigger] a[i]) == item(b[i]),
    decreases a.len(),
{
    if a.len() == 0 {
        assert(list_bytes(a, item) + ra =~= ra);
        assert(list_bytes(b, item) + rb =~= rb);
    } else {
        let fa = a.drop_last();
        let fb = b.drop_last();
        let la = item(a.last());
        let lb = item(b.last());
        assert(list_bytes(a, item) + ra =~= list_bytes(fa, item) + (la + ra));
        assert(list_bytes(b, item) + rb =~= list_bytes(fb, item) + (lb + rb));
        assert(all_fit(fa, fits)) by {
            assert forall|i: int| 0 <= i < fa.len() implies fits(#[trigger] fa[i]) by {
                assert(fits(a[i]));
            }
        }
        assert(all_fit(fb, fits)) by {
            assert forall|i: int| 0 <= i < fb.len() implies fits(#[trigger] fb[i]) by {
                assert(fits(b[i]));
            }
        }
        lemma_list(fa, la + ra, fb, lb + rb, item, fits);
        assert(fits(a[a.len() - 1]) && fits(b[b.len() - 1]));
        assert(item(a.last()) + ra == item(b.last()) + rb);
        assert forall|i: int| 0 <= i < a.len() implies item(#[trigger] a[i]) == item(b[i]) by {
            if i < fa.len() {
                assert(item(fa[i]) == item(fb[i]));
            }
        }
    }
}

/// A list is its first part and its rest.
proof fn lemma_list_split<T>(items: Seq<T>, upto: int, item: spec_fn(T) -> Seq<u8>)
    requires
        0 <= upto <= items.len(),
    ensures
        list_bytes(items, item) == list_bytes(items.take(upto), item) + list_bytes(
            items.skip(upto),
            item,
        ),
    decreases items.len() - upto,
{
    if upto == items.len() {
        assert(items.take(upto) =~= items);
        assert(items.skip(upto) =~= Seq::<T>::empty());
        assert(list_bytes(items, item) + Seq::<u8>::empty() =~= list_bytes(items, item));
    } else {
        let fewer = items.drop_last();
        lemma_list_split(fewer, upto, item);
        assert(fewer.take(upto) =~= items.take(upto));
        assert(items.skip(upto).drop_last() =~= fewer.skip(upto));
        assert(items.skip(upto).last() == items.last());
        assert(list_bytes(items, item) =~= list_bytes(items.take(upto), item) + (list_bytes(
            fewer.skip(upto),
            item,
        ) + item(items.last())));
    }
}

/// A list that is not read to its end goes on with its next item.
proof fn lemma_list_next<T>(items: Seq<T>, at: int, item: spec_fn(T) -> Seq<u8>, rest: Seq<u8>)
    requires
        0 <= at < items.len(),
    ensures
        list_bytes(items, item) + rest == list_bytes(items.take(at), item) + (item(items[at]) + (
        list_bytes(items.skip(at + 1), item) + rest)),
{
    lemma_list_split(items, at, item);
    let tail = items.skip(at);
    lemma_list_split(tail, 1, item);
    assert(tail.take(1).drop_last() =~= Seq::<T>::empty());
    assert(tail.take(1).last() == items[at]);
    assert(list_bytes(tail.take(1).drop_last(), item) =~= Seq::<u8>::empty());
    assert(list_bytes(tail.take(1), item) =~= item(items[at]));
    assert(tail.skip(1) =~= items.skip(at + 1));
    assert(list_bytes(items, item) + rest =~= list_bytes(items.take(at), item) + (item(items[at])
        + (list_bytes(items.skip(at + 1), item) + rest)));
}

/// The encoding of an option.
pub open spec fn option_bytes<T>(value: Option<T>, item: spec_fn(T) -> Seq<u8>) -> Seq<u8> {
    match value {
        None => seq![0u8],
        Some(value) => seq![1u8] + item(value),
    }
}

/// The encoding of an option tells whether there is a value.
proof fn lemma_option<T>(
    a: Option<T>,
    ra: Seq<u8>,
    b: Option<T>,
    rb: Seq<u8>,
    item: spec_fn(T) -> Seq<u8>,
)
    requires
        option_bytes(a, item) + ra == option_bytes(b, item) + rb,
    ensures
        a is Some == b is Some,
        a is Some ==> item(a->0) + ra == item(b->0) + rb,
        a is None ==> ra == rb,
{
    assert((option_bytes(a, item) + ra)[0] == (option_bytes(b, item) + rb)[0]);
    assert((option_bytes(a, item) + ra)[0] == (if a is Some {
        1u8
    } else {
        0u8
    }));
    assert((option_bytes(b, item) + rb)[0] == (if b is Some {
        1u8
    } else {
        0u8
    }));
    if a is Some {
        assert(option_bytes(a, item) + ra =~= seq![1u8] + (item(a->0) + ra));
        assert(option_bytes(b, item) + rb =~= seq![1u8] + (item(b->0) + rb));
        lemma_head(seq![1u8], item(a->0) + ra, seq![1u8], item(b->0) + rb);
    } else {
        lemma_head(seq![0u8], ra, seq![0u8], rb);
    }
}

/// A value that can be written as bytes and read back.
pub trait Wire: Sized {
    /// The encoding of the value.
    spec fn encoding(&self) -> Seq<u8>;

    /// Whether all lists in the value are short enough to be encoded.
    spec fn fits(&self) -> bool;

    /// Whether two values say the same.
    spec fn says_same(&self, other: &Self) -> bool;

    /// An encoding can be read in one way only, and says what the value is.
    proof fn lemma_unique(a: Self, ra: Seq<u8>, b: Self, rb: Seq<u8>)
        requires
            a.fits(),
            b.fits(),
            a.encoding() + ra == b.encoding() + rb,
        ensures
            a.says_same(&b),
            ra == rb,
    ;

    /// Whether the value can be encoded.
    fn is_encodable(&self) -> (r: bool)
        ensures
            r == self.fits(),
    ;

    /// Write the value.
    fn put(&self, out: &mut Vec<u8>)
        requires
            self.fits(),
        ensures
            final(out)@ == old(out)@ + self.encoding(),
    ;

    /// Read a value, and tell where it ends.
    fn get(bytes: &Vec<u8>, at: usize) -> (r: Option<(Self, usize)>)
        requires
            at <= bytes@.len(),
        ensures
            match r {
                Some((value, next)) => at <= next <= bytes@.len() && value.fits() && bytes@.skip(
                    at as int,
                ) == value.encoding() + bytes@.skip(next as int),
                None => forall|value: Self, rest: Seq<u8>|
                    value.fits() ==> bytes@.skip(at as int) != #[trigger] (value.encoding() + rest),
            },
    ;
}

/// Write a value as bytes. A list that is too long makes that impossible.
pub fn encode<T: Wire>(value: &T) -> (r: Option<Vec<u8>>)
    ensures
        match r {
            Some(bytes) => value.fits() && bytes@ == value.encoding(),
            None => !value.fits(),
        },
{
    if !value.is_encodable() {
        return None;
    }
    let mut out: Vec<u8> = Vec::new();
    value.put(&mut out);
    assert(out@ =~= value.encoding());
    Some(out)
}

/// Read a value from bytes. There is none if the bytes are no encoding.
pub fn decode<T: Wire>(bytes: &Vec<u8>) -> (r: Option<T>)
    ensures
        match r {
            Some(value) => value.fits() && value.encoding() == bytes@,
            None => forall|value: T| value.fits() ==> #[trigger] value.encoding() != bytes@,
        },
{
    assert(bytes@.skip(0) =~= bytes@);
    match T::get(bytes, 0) {
        Some((value, next)) => {
            if next == bytes.len() {
                assert(value.encoding() + bytes@.skip(next as int) =~= value.encoding());
                Some(value)
            } else {
                assert forall|other: T| other.fits() implies #[trigger] other.encoding() != bytes@ by {
                    if other.encoding() == bytes@ {
                        assert(other.encoding() + Seq::<u8>::empty() =~= bytes@);
                        T::lemma_unique(
                            other,
                            Seq::<u8>::empty(),
                            value,
                            bytes@.skip(next as int),
                        );
                    }
                }
                None
            }
        },
        None => {
            assert forall|other: T| other.fits() implies #[trigger] other.encoding() != bytes@ by {
                assert(other.encoding() + Seq::<u8>::empty() =~= other.encoding());
            }
            None
        },
    }
}

/// Whether bytes begin with an encoding of a value.
pub open spec fn begins_with<T: Wire>(bytes: Seq<u8>, value: T) -> bool {
    value.fits() && (bytes == value.encoding() || value.encoding().is_prefix_of(bytes))
}

/// Bytes that begin with others are those and a rest.
pub(crate) proof fn lemma_prefix(head: Seq<u8>, bytes: Seq<u8>)
    ensures
        head.is_prefix_of(bytes) || bytes == head ==> bytes == head + bytes.skip(
            head.len() as int,
        ),
        forall|rest: Seq<u8>| bytes == #[trigger] (head + rest) ==> head.is_prefix_of(bytes),
{
    if head.is_prefix_of(bytes) || bytes == head {
        assert(bytes =~= head + bytes.skip(head.len() as int));
    }
    assert forall|rest: Seq<u8>| bytes == #[trigger] (head + rest) implies head.is_prefix_of(
        bytes,
    ) by {
        assert(bytes.subrange(0, head.len() as int) =~= head);
    }
}

/// Read a value from the front of bytes. There is none if the bytes do not begin with an encoding.
pub fn decode_front<T: Wire>(bytes: &Vec<u8>) -> (r: Option<T>)
    ensures
        match r {
            Some(value) => begins_with(bytes@, value),
            None => forall|value: T| !#[trigger] begins_with(bytes@, value),
        },
{
    assert(bytes@.skip(0) =~= bytes@);
    match T::get(bytes, 0) {
        Some((value, next)) => {
            proof {
                lemma_prefix(value.encoding(), bytes@);
            }
            Some(value)
        },
        None => {
            assert forall|value: T| !#[trigger] begins_with(bytes@, value) by {
                lemma_prefix(value.encoding(), bytes@);
                if begins_with(bytes@, value) {
                    let rest = bytes@.skip(value.encoding().len() as int);
                    assert(bytes@ == value.encoding() + rest);
                }
            }
            None
        },
    }
}

/// Whether bytes begin with an encoding of a list.
pub open spec fn begins_with_list<T: Wire>(bytes: Seq<u8>, items: Seq<T>) -> bool {
    vector_fits(items) && (bytes == vector_bytes(items) || vector_bytes(items).is_prefix_of(bytes))
}

/// Read a list from the front of bytes. There is none if the bytes do not begin with an encoding.
pub fn decode_vector_front<T: Wire>(bytes: &Vec<u8>) -> (r: Option<Vec<T>>)
    ensures
        match r {
            Some(items) => begins_with_list(bytes@, items@),
            None => forall|items: Seq<T>| !#[trigger] begins_with_list(bytes@, items),
        },
{
    assert(bytes@.skip(0) =~= bytes@);
    match get_vector::<T>(bytes, 0) {
        Some((items, next)) => {
            proof {
                lemma_prefix(vector_bytes(items@), bytes@);
            }
            Some(items)
        },
        None => {
            assert forall|items: Seq<T>| !#[trigger] begins_with_list(bytes@, items) by {
                lemma_prefix(vector_bytes(items), bytes@);
                if begins_with_list(bytes@, items) {
                    let rest = bytes@.skip(vector_bytes(items).len() as int);
                    assert(bytes@ == vector_bytes(items) + rest);
                }
            }
            None
        },
    }
}

/// What is written is read back: whatever an encoding is read as says the same as what was written.
pub proof fn law_roundtrip<T: Wire>(written: T, read: T)
    requires
        written.fits(),
        read.fits(),
        written.encoding() == read.encoding(),
    ensures
        written.says_same(&read),
{
    assert(written.encoding() + Seq::<u8>::empty() == read.encoding() + Seq::<u8>::empty());
    T::lemma_unique(written, Seq::<u8>::empty(), read, Seq::<u8>::empty());
}

impl Wire for u64 {
    open spec fn encoding(&self) -> Seq<u8> {
        vstd::bytes::spec_u64_to_le_bytes(*self)
    }

    open spec fn fits(&self) -> bool {
        true
    }

    open spec fn says_same(&self, other: &Self) -> bool {
        self == other
    }

    proof fn lemma_unique(a: Self, ra: Seq<u8>, b: Self, rb: Seq<u8>) {
        lemma_u64(a, b);
        lemma_u64(b, a);
        lemma_head(a.encoding(), ra, b.encoding(), rb);
    }

    fn is_encodable(&self) -> (r: bool) {
        true
    }

    fn put(&self, out: &mut Vec<u8>) {
        put_u64(out, *self);
    }

    fn get(bytes: &Vec<u8>, at: usize) -> (r: Option<(Self, usize)>) {
        let ghost all = bytes@.skip(at as int);
        if bytes.len() - at < 8 {
            assert forall|value: u64, rest: Seq<u8>| all != #[trigger] (value.encoding() + rest) by {
                lemma_u64(value, value);
                assert((value.encoding() + rest).len() >= 8);
            }
            return None;
        }
        let value: u64 = read_u64(bytes, at);
        assert(all =~= value.encoding() + bytes@.skip(at + 8));
        Some((value, at + 8))
    }
}

impl Wire for u32 {
    open spec fn encoding(&self) -> Seq<u8> {
        vstd::bytes::spec_u32_to_le_bytes(*self)
    }

    open spec fn fits(&self) -> bool {
        true
    }

    open spec fn says_same(&self, other: &Self) -> bool {
        self == other
    }

    proof fn lemma_unique(a: Self, ra: Seq<u8>, b: Self, rb: Seq<u8>) {
        lemma_u32(a, b);
        lemma_u32(b, a);
        lemma_head(a.encoding(), ra, b.encoding(), rb);
    }

    fn is_encodable(&self) -> (r: bool) {
        true
    }

    fn put(&self, out: &mut Vec<u8>) {
        put_u32(out, *self);
    }

    fn get(bytes: &Vec<u8>, at: usize) -> (r: Option<(Self, usize)>) {
        let ghost all = bytes@.skip(at as int);
        if bytes.len() - at < 4 {
            assert forall|value: u32, rest: Seq<u8>| all != #[trigger] (value.encoding() + rest) by {
                lemma_u32(value, value);
                assert((value.encoding() + rest).len() >= 4);
            }
            return None;
        }
        let value: u32 = read_u32(bytes, at);
        assert(all =~= value.encoding() + bytes@.skip(at + 4));
        Some((value, at + 4))
    }
}

impl Wire for CryptoHash {
    open spec fn encoding(&self) -> Seq<u8> {
        self.bytes@
    }

    open spec fn fits(&self) -> bool {
        true
    }

    open spec fn says_same(&self, other: &Self) -> bool {
        self == other
    }

    proof fn lemma_unique(a: Self, ra: Seq<u8>, b: Self, rb: Seq<u8>) {
        lemma_head(a.bytes@, ra, b.bytes@, rb);
        assert(a.bytes =~= b.bytes);
    }

    fn is_encodable(&self) -> (r: bool) {
        true
    }

    fn put(&self, out: &mut Vec<u8>) {
        put_bytes(out, &self.bytes);
    }

    fn get(bytes: &Vec<u8>, at: usize) -> (r: Option<(Self, usize)>) {
        let ghost all = bytes@.skip(at as int);
        if bytes.len() - at < 32 {
            assert forall|value: CryptoHash, rest: Seq<u8>| all != #[trigger] (value.encoding() + rest)
                by {
                assert((value.encoding() + rest).len() >= 32);
            }
            return None;
        }
        let value = read_hash(bytes, at);
        assert(all =~= value.encoding() + bytes@.skip(at + 32));
        Some((value, at + 32))
    }
}

impl Wire for bool {
    open spec fn encoding(&self) -> Seq<u8> {
        seq![
            if *self {
                1u8
            } else {
                0u8
            },
        ]
    }

    open spec fn fits(&self) -> bool {
        true
    }

    open spec fn says_same(&self, other: &Self) -> bool {
        self == other
    }

    proof fn lemma_unique(a: Self, ra: Seq<u8>, b: Self, rb: Seq<u8>) {
        lemma_head(a.encoding(), ra, b.encoding(), rb);
        assert(a.encoding()[0] == b.encoding()[0]);
    }

    fn is_encodable(&self) -> (r: bool) {
        true
    }

    fn put(&self, out: &mut Vec<u8>) {
        let ghost before = out@;
        out.push(
            if *self {
                1
            } else {
                0
            },
        );
        assert(out@ =~= before + self.encoding());
    }

    fn get(bytes: &Vec<u8>, at: usize) -> (r: Option<(Self, usize)>) {
        let ghost all = bytes@.skip(at as int);
        if bytes.len() - at < 1 || bytes[at] > 1 {
            assert forall|value: bool, rest: Seq<u8>| all != #[trigger] (value.encoding() + rest) by {
                assert((value.encoding() + rest)[0] <= 1);
                assert((value.encoding() + rest).len() > 0);
            }
            return None;
        }
        let value = bytes[at] == 1;
        assert(all =~= value.encoding() + bytes@.skip(at + 1));
        Some((value, at + 1))
    }
}

impl Wire for Phase {
    open spec fn encoding(&self) -> Seq<u8> {
        seq![codec::phase_tag(*self)]
    }

    open spec fn fits(&self) -> bool {
        true
    }

    open spec fn says_same(&self, other: &Self) -> bool {
        self == other
    }

    proof fn lemma_unique(a: Self, ra: Seq<u8>, b: Self, rb: Seq<u8>) {
        lemma_head(a.encoding(), ra, b.encoding(), rb);
        assert(a.encoding()[0] == b.encoding()[0]);
    }

    fn is_encodable(&self) -> (r: bool) {
        true
    }

    fn put(&self, out: &mut Vec<u8>) {
        let ghost before = out@;
        out.push(encode_phase(*self));
        assert(out@ =~= before + self.encoding());
    }

    fn get(bytes: &Vec<u8>, at: usize) -> (r: Option<(Self, usize)>) {
        let ghost all = bytes@.skip(at as int);
        let found = if bytes.len() - at < 1 {
            None
        } else {
            match bytes[at] {
                0 => Some(Phase::Generic),
                1 => Some(Phase::Prepare),
                2 => Some(Phase::Precommit),
                3 => Some(Phase::Commit),
                4 => Some(Phase::Decide),
                _ => None,
            }
        };
        match found {
            Some(value) => {
                assert(all =~= value.encoding() + bytes@.skip(at + 1));
                Some((value, at + 1))
            },
            None => {
                assert forall|value: Phase, rest: Seq<u8>| all != #[trigger] (value.encoding() + rest)
                    by {
                    assert((value.encoding() + rest)[0] == codec::phase_tag(value));
                    assert((value.encoding() + rest).len() > 0);
                    assert(all.len() > 0 ==> all[0] == bytes@[at as int]);
                }
                None
            },
        }
    }
}

impl Wire for SignatureBytes {
    open spec fn encoding(&self) -> Seq<u8> {
        self.bytes@
    }

    open spec fn fits(&self) -> bool {
        true
    }

    open spec fn says_same(&self, other: &Self) -> bool {
        self == other
    }

    proof fn lemma_unique(a: Self, ra: Seq<u8>, b: Self, rb: Seq<u8>) {
        lemma_head(a.bytes@, ra, b.bytes@, rb);
        assert(a.bytes =~= b.bytes);
    }

    fn is_encodable(&self) -> (r: bool) {
        true
    }

    fn put(&self, out: &mut Vec<u8>) {
        put_bytes(out, &self.bytes);
    }

    fn get(bytes: &Vec<u8>, at: usize) -> (r: Option<(Self, usize)>) {
        let ghost all = bytes@.skip(at as int);
        if bytes.len() - at < 64 {
            assert forall|value: SignatureBytes, rest: Seq<u8>| all != #[trigger] (value.encoding()
                + rest) by {
                assert((value.encoding() + rest).len() >= 64);
            }
            return None;
        }
        let value = read_signature(bytes, at);
        assert(all =~= value.encoding() + bytes@.skip(at + 64));
        Some((value, at + 64))
    }
}

impl<T: Wire> Wire for Option<T> {
    open spec fn encoding(&self) -> Seq<u8> {
        match self {
            None => seq![0u8],
            Some(value) => seq![1u8] + value.encoding(),
        }
    }

    open spec fn fits(&self) -> bool {
        match self {
            None => true,
            Some(value) => value.fits(),
        }
    }

    open spec fn says_same(&self, other: &Self) -> bool {
        match (self, other) {
            (None, None) => true,
            (Some(value), Some(other)) => value.says_same(other),
            _ => false,
        }
    }

    proof fn lemma_unique(a: Self, ra: Seq<u8>, b: Self, rb: Seq<u8>) {
        let item = |value: T| value.encoding();
        assert(a.encoding() == option_bytes(a, item));
        assert(b.encoding() == option_bytes(b, item));
        lemma_option(a, ra, b, rb, item);
        if a is Some {
            T::lemma_unique(a->0, ra, b->0, rb);
        }
    }

    fn is_encodable(&self) -> (r: bool) {
        match self {
            None => true,
            Some(value) => value.is_encodable(),
        }
    }

    fn put(&self, out: &mut Vec<u8>) {
        let ghost before = out@;
        match self {
            None => {
                out.push(0);
            },
            Some(value) => {
                out.push(1);
                value.put(out);
            },
        }
        assert(out@ =~= before + self.encoding());
    }

    fn get(bytes: &Vec<u8>, at: usize) -> (r: Option<(Self, usize)>) {
        let ghost all = bytes@.skip(at as int);
        if bytes.len() - at < 1 || bytes[at] > 1 {
            assert forall|value: Option<T>, rest: Seq<u8>| all != #[trigger] (value.encoding() + rest)
                by {
                assert((value.encoding() + rest)[0] <= 1);
                assert((value.encoding() + rest).len() > 0);
            }
            return None;
        }
        let ghost body = bytes@.skip(at + 1);
        if bytes[at] == 0 {
            let value: Option<T> = None;
            assert(all =~= value.encoding() + body);
            return Some((value, at + 1));
        }
        assert(all =~= seq![1u8] + body);
        match T::get(bytes, at + 1) {
            Some((inner, next)) => {
                let value = Some(inner);
                assert(all =~= value.encoding() + bytes@.skip(next as int));
                Some((value, next))
            },
            None => {
                assert forall|value: Option<T>, rest: Seq<u8>| value.fits() implies all
                    != #[trigger] (value.encoding() + rest) by {
                    if all == value.encoding() + rest {
                        assert((value.encoding() + rest)[0] == 1);
                        assert(value is Some);
                        assert(value.encoding() + rest =~= seq![1u8] + ((value->0).encoding() + rest));
                        lemma_head(seq![1u8], (value->0).encoding() + rest, seq![1u8], body);
                    }
                }
                None
            },
        }
    }
}

impl<A: Wire, B: Wire> Wire for (A, B) {
    open spec fn encoding(&self) -> Seq<u8> {
        self.0.encoding() + self.1.encoding()
    }

    open spec fn fits(&self) -> bool {
        self.0.fits() && self.1.fits()
    }

    open spec fn says_same(&self, other: &Self) -> bool {
        self.0.says_same(&other.0) && self.1.says_same(&other.1)
    }

    proof fn lemma_unique(a: Self, ra: Seq<u8>, b: Self, rb: Seq<u8>) {
        assert(a.encoding() + ra =~= a.0.encoding() + (a.1.encoding() + ra));
        assert(b.encoding() + rb =~= b.0.encoding() + (b.1.encoding() + rb));
        A::lemma_unique(a.0, a.1.encoding() + ra, b.0, b.1.encoding() + rb);
        B::lemma_unique(a.1, ra, b.1, rb);
    }

    fn is_encodable(&self) -> (r: bool) {
        self.0.is_encodable() && self.1.is_encodable()
    }

    fn put(&self, out: &mut Vec<u8>) {
        let ghost before = out@;
        self.0.put(out);
        self.1.put(out);
        assert(out@ =~= before + self.encoding());
    }

    fn get(bytes: &Vec<u8>, at: usize) -> (r: Option<(Self, usize)>) {
        let ghost all = bytes@.skip(at as int);
        let (first, middle) = match A::get(bytes, at) {
            Some(found) => found,
            None => {
                assert forall|value: (A, B), rest: Seq<u8>| value.fits() implies all != #[trigger] (
                value.encoding() + rest) by {
                    assert(value.encoding() + rest =~= value.0.encoding() + (value.1.encoding() + rest));
                }
                return None;
            },
        };
        match B::get(bytes, middle) {
            Some((second, next)) => {
                let value = (first, second);
                assert(all =~= value.encoding() + bytes@.skip(next as int));
                Some((value, next))
            },
            None => {
                assert forall|value: (A, B), rest: Seq<u8>| value.fits() implies all != #[trigger] (
                value.encoding() + rest) by {
                    if all == value.encoding() + rest {
                        assert(value.encoding() + rest =~= value.0.encoding() + (value.1.encoding() + rest));
                        A::lemma_unique(
                            value.0,
                            value.1.encoding() + rest,
                            first,
                            bytes@.skip(middle as int),
                        );
                    }
                }
                None
            },
        }
    }
}

/// The encoding of items.
pub open spec fn item_of<T: Wire>() -> spec_fn(T) -> Seq<u8> {
    |value: T| value.encoding()
}

/// Which items fit.
pub open spec fn fitting<T: Wire>() -> spec_fn(T) -> bool {
    |value: T| value.fits()
}

/// The encoding of a vector.
pub open spec fn vector_bytes<T: Wire>(items: Seq<T>) -> Seq<u8> {
    vstd::bytes::spec_u32_to_le_bytes(items.len() as u32) + list_bytes(items, item_of::<T>())
}

/// Whether a vector is short enough to be encoded, with all its items.
pub open spec fn vector_fits<T: Wire>(items: Seq<T>) -> bool {
    items.len() <= u32::MAX && all_fit(items, fitting::<T>())
}

/// Whether two vectors say the same.
pub open spec fn same_vector<T: Wire>(a: Seq<T>, b: Seq<T>) -> bool {
    a.len() == b.len() && forall|i: int| 0 <= i < a.len() ==> (#[trigger] a[i]).says_same(&b[i])
}

/// Encoded items can be read in one way only.
proof fn lemma_items_read_uniquely<T: Wire>()
    ensures
        reads_uniquely(item_of::<T>(), fitting::<T>()),
{
    let item = item_of::<T>();
    let fits = fitting::<T>();
    assert forall|x: T, rx: Seq<u8>, y: T, ry: Seq<u8>|
        #![trigger item(x) + rx, item(y) + ry]
        fits(x) && fits(y) && item(x) + rx == item(y) + ry implies item(x) == item(y) && rx
        == ry by {
        T::lemma_unique(x, rx, y, ry);
        assert((item(x) + rx).len() == item(x).len() + rx.len());
        assert((item(y) + ry).len() == item(y).len() + ry.len());
        lemma_head(item(x), rx, item(y), ry);
    }
}

/// An encoded vector can be read in one way only, and says what it is.
pub(crate) proof fn lemma_vector<T: Wire>(a: Seq<T>, ra: Seq<u8>, b: Seq<T>, rb: Seq<u8>)
    requires
        vector_fits(a),
        vector_fits(b),
        vector_bytes(a) + ra == vector_bytes(b) + rb,
    ensures
        same_vector(a, b),
        ra == rb,
{
    let item = item_of::<T>();
    let ha = vstd::bytes::spec_u32_to_le_bytes(a.len() as u32);
    let hb = vstd::bytes::spec_u32_to_le_bytes(b.len() as u32);
    lemma_u32(a.len() as u32, b.len() as u32);
    lemma_u32(b.len() as u32, a.len() as u32);
    assert(vector_bytes(a) + ra =~= ha + (list_bytes(a, item) + ra));
    assert(vector_bytes(b) + rb =~= hb + (list_bytes(b, item) + rb));
    lemma_head(ha, list_bytes(a, item) + ra, hb, list_bytes(b, item) + rb);
    lemma_items_read_uniquely::<T>();
    lemma_list(a, ra, b, rb, item, fitting::<T>());
    assert forall|i: int| 0 <= i < a.len() implies (#[trigger] a[i]).says_same(&b[i]) by {
        assert(item(a[i]) == item(b[i]));
        assert(fitting::<T>()(a[i]) && fitting::<T>()(b[i]));
        assert(a[i].encoding() + Seq::<u8>::empty() == b[i].encoding() + Seq::<u8>::empty());
        T::lemma_unique(a[i], Seq::empty(), b[i], Seq::empty());
    }
}

/// Where no item can be read, no vector can be.
proof fn lemma_vector_stuck<T: Wire>(
    items: Seq<T>,
    rest: Seq<u8>,
    before: Seq<T>,
    left: Seq<u8>,
    count: u32,
    all: Seq<u8>,
)
    requires
        vector_fits(items),
        all_fit(before, fitting::<T>()),
        all == vstd::bytes::spec_u32_to_le_bytes(count) + (list_bytes(before, item_of::<T>())
            + left),
        before.len() < count,
        forall|value: T, after: Seq<u8>|
            value.fits() ==> left != #[trigger] (value.encoding() + after),
    ensures
        all != vector_bytes(items) + rest,
{
    if all == vector_bytes(items) + rest {
        let item = item_of::<T>();
        let head = vstd::bytes::spec_u32_to_le_bytes(items.len() as u32);
        lemma_u32(items.len() as u32, count);
        lemma_u32(count, items.len() as u32);
        assert(vector_bytes(items) + rest =~= head + (list_bytes(items, item) + rest));
        lemma_head(
            head,
            list_bytes(items, item) + rest,
            vstd::bytes::spec_u32_to_le_bytes(count),
            list_bytes(before, item) + left,
        );
        let at = before.len() as int;
        lemma_list_next(items, at, item, rest);
        let tail = list_bytes(items.skip(at + 1), item) + rest;
        lemma_items_read_uniquely::<T>();
        assert(all_fit(items.take(at), fitting::<T>())) by {
            assert forall|i: int| 0 <= i < at implies fitting::<T>()(
                #[trigger] items.take(at)[i],
            ) by {
                assert(fitting::<T>()(items[i]));
            }
        }
        lemma_list(before, left, items.take(at), item(items[at]) + tail, item, fitting::<T>());
        assert(fitting::<T>()(items[at]));
        assert(left == items[at].encoding() + tail);
    }
}

/// Whether a vector can be encoded.
pub(crate) fn is_vector_encodable<T: Wire>(items: &Vec<T>) -> (r: bool)
    ensures
        r == vector_fits(items@),
{
    if items.len() as u64 > u32::MAX as u64 {
        return false;
    }
    let mut i: usize = 0;
    while i < items.len()
        invariant
            i <= items@.len(),
            forall|j: int| 0 <= j < i ==> (#[trigger] items@[j]).fits(),
        decreases items@.len() - i,
    {
        if !items[i].is_encodable() {
            assert(!fitting::<T>()(items@[i as int]));
            return false;
        }
        i = i + 1;
    }
    true
}

/// Write a vector.
pub(crate) fn put_vector<T: Wire>(items: &Vec<T>, out: &mut Vec<u8>)
    requires
        vector_fits(items@),
    ensures
        final(out)@ == old(out)@ + vector_bytes(items@),
{
    let ghost before = out@;
    let ghost item = item_of::<T>();
    put_u32(out, items.len() as u32);
    let ghost start = out@;
    let mut i: usize = 0;
    assert(items@.take(0) =~= Seq::<T>::empty());
    assert(start + list_bytes(items@.take(0), item) =~= start);
    while i < items.len()
        invariant
            i <= items@.len(),
            vector_fits(items@),
            item == item_of::<T>(),
            out@ == start + list_bytes(items@.take(i as int), item),
        decreases items@.len() - i,
    {
        let ghost prefix = out@;
        assert(fitting::<T>()(items@[i as int]));
        items[i].put(out);
        assert(items@.take(i + 1).drop_last() =~= items@.take(i as int));
        assert(out@ =~= start + list_bytes(items@.take(i + 1), item));
        i = i + 1;
    }
    assert(items@.take(i as int) =~= items@);
    assert(out@ =~= before + vector_bytes(items@));
}

/// Read a vector.
pub(crate) fn get_vector<T: Wire>(bytes: &Vec<u8>, at: usize) -> (r: Option<(Vec<T>, usize)>)
    requires
        at <= bytes@.len(),
    ensures
        match r {
            Some((items, next)) => at <= next <= bytes@.len() && vector_fits(items@)
                && bytes@.skip(at as int) == vector_bytes(items@) + bytes@.skip(next as int),
            None => forall|items: Seq<T>, rest: Seq<u8>|
                vector_fits(items) ==> bytes@.skip(at as int) != #[trigger] (vector_bytes(items)
                    + rest),
        },
{
    let ghost all = bytes@.skip(at as int);
    if bytes.len() - at < 4 {
        assert forall|items: Seq<T>, rest: Seq<u8>| vector_fits(items) implies all != #[trigger] (
        vector_bytes(items) + rest) by {
            lemma_u32(items.len() as u32, 0);
            assert((vector_bytes(items) + rest).len() >= 4);
        }
        return None;
    }
    let count: u32 = read_u32(bytes, at);
    let start: usize = at + 4;
    let ghost head = vstd::bytes::spec_u32_to_le_bytes(count);
    let ghost item = item_of::<T>();
    let mut list: Vec<T> = Vec::new();
    let mut next: usize = start;
    let mut done: u32 = 0;
    assert(all =~= head + (list_bytes(list@, item) + bytes@.skip(next as int)));
    while done < count
        invariant
            done <= count,
            done == list@.len(),
            at <= next <= bytes@.len(),
            item == item_of::<T>(),
            all == bytes@.skip(at as int),
            head == vstd::bytes::spec_u32_to_le_bytes(count),
            all_fit(list@, fitting::<T>()),
            all == head + (list_bytes(list@, item) + bytes@.skip(next as int)),
        decreases count - done,
    {
        let ghost before = list@;
        let ghost left = bytes@.skip(next as int);
        match T::get(bytes, next) {
            None => {
                assert forall|items: Seq<T>, rest: Seq<u8>| vector_fits(items) implies all
                    != #[trigger] (vector_bytes(items) + rest) by {
                    lemma_vector_stuck(items, rest, before, left, count, all);
                }
                return None;
            },
            Some((value, after)) => {
                assert(left == item(value) + bytes@.skip(after as int));
                list.push(value);
                next = after;
                assert(list@.drop_last() =~= before);
                assert(list_bytes(list@, item) + bytes@.skip(next as int) =~= list_bytes(
                    before,
                    item,
                ) + left);
            },
        }
        done = done + 1;
    }
    assert(all =~= vector_bytes(list@) + bytes@.skip(next as int));
    Some((list, next))
}

impl<T: Wire> Wire for Vec<T> {
    open spec fn encoding(&self) -> Seq<u8> {
        vector_bytes(self@)
    }

    open spec fn fits(&self) -> bool {
        vector_fits(self@)
    }

    open spec fn says_same(&self, other: &Self) -> bool {
        same_vector(self@, other@)
    }

    proof fn lemma_unique(a: Self, ra: Seq<u8>, b: Self, rb: Seq<u8>) {
        lemma_vector(a@, ra, b@, rb);
    }

    fn is_encodable(&self) -> (r: bool) {
        is_vector_encodable(self)
    }

    fn put(&self, out: &mut Vec<u8>) {
        put_vector(self, out);
    }

    fn get(bytes: &Vec<u8>, at: usize) -> (r: Option<(Self, usize)>) {
        match get_vector(bytes, at) {
            Some((list, next)) => Some((list, next)),
            None => {
                assert forall|value: Vec<T>, rest: Seq<u8>| value.fits() implies bytes@.skip(
                    at as int,
                ) != #[trigger] (value.encoding() + rest) by {
                    assert(value.encoding() + rest == vector_bytes(value@) + rest);
                }
                None
            },
        }
    }
}

/// The encoding of a signature set is that of a vector.
proof fn lemma_signatures_are_a_vector(signatures: Seq<Option<SignatureBytes>>)
    ensures
        codec::signatures_bytes(signatures) == list_bytes(
            signatures,
            item_of::<Option<SignatureBytes>>(),
        ),
        codec::signature_set_bytes(signatures) == vector_bytes(signatures),
    decreases signatures.len(),
{
    if signatures.len() > 0 {
        lemma_signatures_are_a_vector(signatures.drop_last());
    }
}

impl Wire for SignatureSet {
    open spec fn encoding(&self) -> Seq<u8> {
        vector_bytes(self@)
    }

    open spec fn fits(&self) -> bool {
        vector_fits(self@)
    }

    open spec fn says_same(&self, other: &Self) -> bool {
        self@ == other@
    }

    proof fn lemma_unique(a: Self, ra: Seq<u8>, b: Self, rb: Seq<u8>) {
        lemma_vector(a@, ra, b@, rb);
        assert forall|i: int| 0 <= i < a@.len() implies a@[i] == b@[i] by {
            assert(a@[i].says_same(&b@[i]));
        }
        assert(a@ =~= b@);
    }

    fn is_encodable(&self) -> (r: bool) {
        is_vector_encodable(&*self.signatures)
    }

    fn put(&self, out: &mut Vec<u8>) {
        put_vector(&*self.signatures, out);
    }

    fn get(bytes: &Vec<u8>, at: usize) -> (r: Option<(Self, usize)>) {
        match get_vector(bytes, at) {
            Some((list, next)) => Some((SignatureSet { signatures: Arc::new(list) }, next)),
            None => {
                assert forall|value: SignatureSet, rest: Seq<u8>| value.fits() implies bytes@.skip(
                    at as int,
                ) != #[trigger] (value.encoding() + rest) by {
                    assert(value.encoding() + rest == vector_bytes(value@) + rest);
                }
                None
            },
        }
    }
}

impl Wire for u8 {
    open spec fn encoding(&self) -> Seq<u8> {
        seq![*self]
    }

    open spec fn fits(&self) -> bool {
        true
    }

    open spec fn says_same(&self, other: &Self) -> bool {
        self == other
    }

    proof fn lemma_unique(a: Self, ra: Seq<u8>, b: Self, rb: Seq<u8>) {
        lemma_head(a.encoding(), ra, b.encoding(), rb);
        assert(a.encoding()[0] == b.encoding()[0]);
    }

    fn is_encodable(&self) -> (r: bool) {
        true
    }

    fn put(&self, out: &mut Vec<u8>) {
        let ghost before = out@;
        out.push(*self);
        assert(out@ =~= before + self.encoding());
    }

    fn get(bytes: &Vec<u8>, at: usize) -> (r: Option<(Self, usize)>) {
        let ghost all = bytes@.skip(at as int);
        if bytes.len() - at < 1 {
            assert forall|value: u8, rest: Seq<u8>| all != #[trigger] (value.encoding() + rest) by {
                assert((value.encoding() + rest).len() > 0);
            }
            return None;
        }
        let value: u8 = bytes[at];
        assert(all =~= value.encoding() + bytes@.skip(at + 1));
        Some((value, at + 1))
    }
}

impl Wire for Datum {
    open spec fn encoding(&self) -> Seq<u8> {
        vector_bytes(self.bytes@)
    }

    open spec fn fits(&self) -> bool {
        vector_fits(self.bytes@)
    }

    open spec fn says_same(&self, other: &Self) -> bool {
        self.bytes@ == other.bytes@
    }

    proof fn lemma_unique(a: Self, ra: Seq<u8>, b: Self, rb: Seq<u8>) {
        lemma_vector(a.bytes@, ra, b.bytes@, rb);
        assert forall|i: int| 0 <= i < a.bytes@.len() implies a.bytes@[i] == b.bytes@[i] by {
            assert(a.bytes@[i].says_same(&b.bytes@[i]));
        }
        assert(a.bytes@ =~= b.bytes@);
    }

    fn is_encodable(&self) -> (r: bool) {
        is_vector_encodable(&*self.bytes.bytes)
    }

    fn put(&self, out: &mut Vec<u8>) {
        put_vector(&*self.bytes.bytes, out);
    }

    fn get(bytes: &Vec<u8>, at: usize) -> (r: Option<(Self, usize)>) {
        match get_vector(bytes, at) {
            Some((list, next)) => Some((Datum { bytes: Bytes::new(list) }, next)),
            None => {
                assert forall|value: Datum, rest: Seq<u8>| value.fits() implies bytes@.skip(
                    at as int,
                ) != #[trigger] (value.encoding() + rest) by {
                    assert(value.encoding() + rest == vector_bytes(value.bytes@) + rest);
                }
                None
            },
        }
    }
}

impl Wire for Data {
    open spec fn encoding(&self) -> Seq<u8> {
        vector_bytes(self@)
    }

    open spec fn fits(&self) -> bool {
        vector_fits(self@)
    }

    open spec fn says_same(&self, other: &Self) -> bool {
        same_vector(self@, other@)
    }

    proof fn lemma_unique(a: Self, ra: Seq<u8>, b: Self, rb: Seq<u8>) {
        lemma_vector(a@, ra, b@, rb);
    }

    fn is_encodable(&self) -> (r: bool) {
        is_vector_encodable(&*self.datums)
    }

    fn put(&self, out: &mut Vec<u8>) {
        put_vector(&*self.datums, out);
    }

    fn get(bytes: &Vec<u8>, at: usize) -> (r: Option<(Self, usize)>) {
        match get_vector(bytes, at) {
            Some((list, next)) => Some((Data::new(list), next)),
            None => {
                assert forall|value: Data, rest: Seq<u8>| value.fits() implies bytes@.skip(
                    at as int,
                ) != #[trigger] (value.encoding() + rest) by {
                    assert(value.encoding() + rest == vector_bytes(value@) + rest);
                }
                None
            },
        }
    }
}

/// The parts of a certificate, in the order in which they are written.
pub type PhaseCertificateParts = (u64, (u64, (CryptoHash, (Phase, SignatureSet))));

/// The parts of a certificate.
pub open spec fn pc_parts(pc: PhaseCertificate) -> PhaseCertificateParts {
    (pc.chain_id.0, (pc.view.0, (pc.block, (pc.phase, pc.signatures))))
}

impl Wire for PhaseCertificate {
    open spec fn encoding(&self) -> Seq<u8> {
        pc_parts(*self).encoding()
    }

    open spec fn fits(&self) -> bool {
        pc_parts(*self).fits()
    }

    open spec fn says_same(&self, other: &Self) -> bool {
        &&& self.chain_id == other.chain_id
        &&& self.view == other.view
        &&& self.block == other.block
        &&& self.phase == other.phase
        &&& self.signatures@ == other.signatures@
    }

    proof fn lemma_unique(a: Self, ra: Seq<u8>, b: Self, rb: Seq<u8>) {
        PhaseCertificateParts::lemma_unique(pc_parts(a), ra, pc_parts(b), rb);
    }

    fn is_encodable(&self) -> (r: bool) {
        let copy = self.clone();
        let parts: PhaseCertificateParts = (
            copy.chain_id.0,
            (copy.view.0, (copy.block, (copy.phase, copy.signatures))),
        );
        parts.is_encodable()
    }

    fn put(&self, out: &mut Vec<u8>) {
        let copy = self.clone();
        let parts: PhaseCertificateParts = (
            copy.chain_id.0,
            (copy.view.0, (copy.block, (copy.phase, copy.signatures))),
        );
        parts.put(out);
    }

    fn get(bytes: &Vec<u8>, at: usize) -> (r: Option<(Self, usize)>) {
        match PhaseCertificateParts::get(bytes, at) {
            Some(((chain_id, (view, (block, (phase, signatures)))), next)) => Some(
                (
                    PhaseCertificate {
                        chain_id: ChainID(chain_id),
                        view: ViewNumber(view),
                        block,
                        phase,
                        signatures,
                    },
                    next,
                ),
            ),
            None => {
                assert forall|value: PhaseCertificate, rest: Seq<u8>| value.fits() implies bytes@.skip(
                    at as int,
                ) != #[trigger] (value.encoding() + rest) by {
                    assert(value.encoding() + rest == pc_parts(value).encoding() + rest);
                }
                None
            },
        }
    }
}

/// The parts of a tip, in the order in which they are written.
pub type TipInfoParts = (CryptoHash, (u64, (PhaseCertificate, (CryptoHash, u64))));

/// The parts of a tip.
pub open spec fn tip_parts(tip: TipInfo) -> TipInfoParts {
    (tip.block_hash, (tip.block_height.0, (tip.block_justify, (tip.block_data_hash, tip.view.0))))
}

impl Wire for TipInfo {
    open spec fn encoding(&self) -> Seq<u8> {
        tip_parts(*self).encoding()
    }

    open spec fn fits(&self) -> bool {
        tip_parts(*self).fits()
    }

    open spec fn says_same(&self, other: &Self) -> bool {
        &&& self.block_hash == other.block_hash
        &&& self.block_height == other.block_height
        &&& self.block_justify.says_same(&other.block_justify)
        &&& self.block_data_hash == other.block_data_hash
        &&& self.view == other.view
    }

    proof fn lemma_unique(a: Self, ra: Seq<u8>, b: Self, rb: Seq<u8>) {
        TipInfoParts::lemma_unique(tip_parts(a), ra, tip_parts(b), rb);
    }

    fn is_encodable(&self) -> (r: bool) {
        let copy = self.clone();
        let parts: TipInfoParts = (
            copy.block_hash,
            (copy.block_height.0, (copy.block_justify, (copy.block_data_hash, copy.view.0))),
        );
        parts.is_encodable()
    }

    fn put(&self, out: &mut Vec<u8>) {
        let copy = self.clone();
        let parts: TipInfoParts = (
            copy.block_hash,
            (copy.block_height.0, (copy.block_justify, (copy.block_data_hash, copy.view.0))),
        );
        parts.put(out);
    }

    fn get(bytes: &Vec<u8>, at: usize) -> (r: Option<(Self, usize)>) {
        match TipInfoParts::get(bytes, at) {
            Some(((block_hash, (block_height, (block_justify, (block_data_hash, view)))), next)) => Some(
                (
                    TipInfo {
                        block_hash,
                        block_height: BlockHeight(block_height),
                        block_justify,
                        block_data_hash,
                        view: ViewNumber(view),
                    },
                    next,
                ),
            ),
            None => {
                assert forall|value: TipInfo, rest: Seq<u8>| value.fits() implies bytes@.skip(
                    at as int,
                ) != #[trigger] (value.encoding() + rest) by {
                    assert(value.encoding() + rest == tip_parts(value).encoding() + rest);
                }
                None
            },
        }
    }
}

/// The parts of a no-endorsement certificate, in the order in which they are written.
pub type NoEndorsementCertificateParts = (u64, (u64, SignatureSet));

/// The parts of a no-endorsement certificate.
pub open spec fn nec_parts(nec: NoEndorsementCertificate) -> NoEndorsementCertificateParts {
    (nec.view.0, (nec.high_tip_qc_view.0, nec.signatures))
}

impl Wire for NoEndorsementCertificate {
    open spec fn encoding(&self) -> Seq<u8> {
        nec_parts(*self).encoding()
    }

    open spec fn fits(&self) -> bool {
        nec_parts(*self).fits()
    }

    open spec fn says_same(&self, other: &Self) -> bool {
        &&& self.view == other.view
        &&& self.high_tip_qc_view == other.high_tip_qc_view
        &&& self.signatures@ == other.signatures@
    }

    proof fn lemma_unique(a: Self, ra: Seq<u8>, b: Self, rb: Seq<u8>) {
        NoEndorsementCertificateParts::lemma_unique(nec_parts(a), ra, nec_parts(b), rb);
    }

    fn is_encodable(&self) -> (r: bool) {
        let copy = self.clone();
        let parts: NoEndorsementCertificateParts = (copy.view.0, (copy.high_tip_qc_view.0, copy.signatures));
        parts.is_encodable()
    }

    fn put(&self, out: &mut Vec<u8>) {
        let copy = self.clone();
        let parts: NoEndorsementCertificateParts = (copy.view.0, (copy.high_tip_qc_view.0, copy.signatures));
        parts.put(out);
    }

    fn get(bytes: &Vec<u8>, at: usize) -> (r: Option<(Self, usize)>) {
        match NoEndorsementCertificateParts::get(bytes, at) {
            Some(((view, (high_tip_qc_view, signatures)), next)) => Some(
                (
                    NoEndorsementCertificate {
                        view: ViewNumber(view),
                        high_tip_qc_view: ViewNumber(high_tip_qc_view),
                        signatures,
                    },
                    next,
                ),
            ),
            None => {
                assert forall|value: NoEndorsementCertificate, rest: Seq<u8>| value.fits() implies bytes@.skip(
                    at as int,
                ) != #[trigger] (value.encoding() + rest) by {
                    assert(value.encoding() + rest == nec_parts(value).encoding() + rest);
                }
                None
            },
        }
    }
}

impl Wire for VoterMetadata {
    open spec fn encoding(&self) -> Seq<u8> {
        vector_bytes(self@)
    }

    open spec fn fits(&self) -> bool {
        vector_fits(self@)
    }

    open spec fn says_same(&self, other: &Self) -> bool {
        same_vector(self@, other@)
    }

    proof fn lemma_unique(a: Self, ra: Seq<u8>, b: Self, rb: Seq<u8>) {
        lemma_vector(a@, ra, b@, rb);
    }

    fn is_encodable(&self) -> (r: bool) {
        is_vector_encodable(&*self.entries)
    }

    fn put(&self, out: &mut Vec<u8>) {
        put_vector(&*self.entries, out);
    }

    fn get(bytes: &Vec<u8>, at: usize) -> (r: Option<(Self, usize)>) {
        match get_vector(bytes, at) {
            Some((list, next)) => Some((VoterMetadata::new(list), next)),
            None => {
                assert forall|value: VoterMetadata, rest: Seq<u8>| value.fits() implies bytes@.skip(
                    at as int,
                ) != #[trigger] (value.encoding() + rest) by {
                    assert(value.encoding() + rest == vector_bytes(value@) + rest);
                }
                None
            },
        }
    }
}

/// The parts of a timeout certificate, in the order in which they are written.
pub type TimeoutCertificateParts = (
    u64,
    (u64, (SignatureSet, (Option<TipInfo>, (Option<PhaseCertificate>, (bool, VoterMetadata))))),
);

/// The parts of a timeout certificate.
pub open spec fn tc_parts(tc: TimeoutCertificate) -> TimeoutCertificateParts {
    (
        tc.chain_id.0,
        (
            tc.view.0,
            (tc.signatures, (tc.high_tip, (tc.high_qc, (tc.high_tip_is_winner, tc.voter_metadata)))),
        ),
    )
}

impl Wire for TimeoutCertificate {
    open spec fn encoding(&self) -> Seq<u8> {
        tc_parts(*self).encoding()
    }

    open spec fn fits(&self) -> bool {
        tc_parts(*self).fits()
    }

    open spec fn says_same(&self, other: &Self) -> bool {
        &&& self.chain_id == other.chain_id
        &&& self.view == other.view
        &&& self.signatures@ == other.signatures@
        &&& self.high_tip.says_same(&other.high_tip)
        &&& self.high_qc.says_same(&other.high_qc)
        &&& self.high_tip_is_winner == other.high_tip_is_winner
        &&& self.voter_metadata.says_same(&other.voter_metadata)
    }

    proof fn lemma_unique(a: Self, ra: Seq<u8>, b: Self, rb: Seq<u8>) {
        TimeoutCertificateParts::lemma_unique(tc_parts(a), ra, tc_parts(b), rb);
    }

    fn is_encodable(&self) -> (r: bool) {
        let copy = self.clone();
        let parts: TimeoutCertificateParts = (
            copy.chain_id.0,
            (
                copy.view.0,
                (
                    copy.signatures,
                    (copy.high_tip, (copy.high_qc, (copy.high_tip_is_winner, copy.voter_metadata))),
                ),
            ),
        );
        parts.is_encodable()
    }

    fn put(&self, out: &mut Vec<u8>) {
        let copy = self.clone();
        let parts: TimeoutCertificateParts = (
            copy.chain_id.0,
            (
                copy.view.0,
                (
                    copy.signatures,
                    (copy.high_tip, (copy.high_qc, (copy.high_tip_is_winner, copy.voter_metadata))),
                ),
            ),
        );
        parts.put(out);
    }

    fn get(bytes: &Vec<u8>, at: usize) -> (r: Option<(Self, usize)>) {
        match TimeoutCertificateParts::get(bytes, at) {
            Some((
                (
                    chain_id,
                    (
                        view,
                        (
                            signatures,
                            (high_tip, (high_qc, (high_tip_is_winner, voter_metadata))),
                        ),
                    ),
                ),
                next,
            )) => Some(
                (
                    TimeoutCertificate {
                        chain_id: ChainID(chain_id),
                        view: ViewNumber(view),
                        signatures,
                        high_tip,
                        high_qc,
                        high_tip_is_winner,
                        voter_metadata,
                    },
                    next,
                ),
            ),
            None => {
                assert forall|value: TimeoutCertificate, rest: Seq<u8>| value.fits() implies bytes@.skip(
                    at as int,
                ) != #[trigger] (value.encoding() + rest) by {
                    assert(value.encoding() + rest == tc_parts(value).encoding() + rest);
                }
                None
            },
        }
    }
}

/// The parts of a header, in the order in which they are written.
pub type ProposalHeaderParts = (
    u64,
    (
        u64,
        (
            CryptoHash,
            (
                u64,
                (
                    CryptoHash,
                    (
                        PhaseCertificate,
                        (Option<TimeoutCertificate>, (Option<NoEndorsementCertificate>, bool)),
                    ),
                ),
            ),
        ),
    ),
);

/// The parts of a header.
pub open spec fn header_parts(header: ProposalHeader) -> ProposalHeaderParts {
    (
        header.chain_id.0,
        (
            header.view.0,
            (
                header.block_hash,
                (
                    header.height.0,
                    (
                        header.data_hash,
                        (
                            header.justify,
                            (header.tc, (header.nec, header.has_validator_set_updates)),
                        ),
                    ),
                ),
            ),
        ),
    )
}

impl Wire for ProposalHeader {
    open spec fn encoding(&self) -> Seq<u8> {
        header_parts(*self).encoding()
    }

    open spec fn fits(&self) -> bool {
        header_parts(*self).fits()
    }

    open spec fn says_same(&self, other: &Self) -> bool {
        &&& self.chain_id == other.chain_id
        &&& self.view == other.view
        &&& self.block_hash == other.block_hash
        &&& self.height == other.height
        &&& self.data_hash == other.data_hash
        &&& self.justify.says_same(&other.justify)
        &&& self.tc.says_same(&other.tc)
        &&& self.nec.says_same(&other.nec)
        &&& self.has_validator_set_updates == other.has_validator_set_updates
    }

    proof fn lemma_unique(a: Self, ra: Seq<u8>, b: Self, rb: Seq<u8>) {
        ProposalHeaderParts::lemma_unique(header_parts(a), ra, header_parts(b), rb);
    }

    fn is_encodable(&self) -> (r: bool) {
        let copy = self.clone();
        let parts: ProposalHeaderParts = (
            copy.chain_id.0,
            (
                copy.view.0,
                (
                    copy.block_hash,
                    (
                        copy.height.0,
                        (
                            copy.data_hash,
                            (copy.justify, (copy.tc, (copy.nec, copy.has_validator_set_updates))),
                        ),
                    ),
                ),
            ),
        );
        parts.is_encodable()
    }

    fn put(&self, out: &mut Vec<u8>) {
        let copy = self.clone();
        let parts: ProposalHeaderParts = (
            copy.chain_id.0,
            (
                copy.view.0,
                (
                    copy.block_hash,
                    (
                        copy.height.0,
                        (
                            copy.data_hash,
                            (copy.justify, (copy.tc, (copy.nec, copy.has_validator_set_updates))),
                        ),
                    ),
                ),
            ),
        );
        parts.put(out);
    }

    fn get(bytes: &Vec<u8>, at: usize) -> (r: Option<(Self, usize)>) {
        match ProposalHeaderParts::get(bytes, at) {
            Some((
                (
                    chain_id,
                    (
                        view,
                        (
                            block_hash,
                            (
                                height,
                                (data_hash, (justify, (tc, (nec, has_validator_set_updates)))),
                            ),
                        ),
                    ),
                ),
                next,
            )) => Some(
                (
                    ProposalHeader {
                        chain_id: ChainID(chain_id),
                        view: ViewNumber(view),
                        block_hash,
                        height: BlockHeight(height),
                        data_hash,
                        justify,
                        tc,
                        nec,
                        has_validator_set_updates,
                    },
                    next,
                ),
            ),
            None => {
                assert forall|value: ProposalHeader, rest: Seq<u8>| value.fits() implies bytes@.skip(
                    at as int,
                ) != #[trigger] (value.encoding() + rest) by {
                    assert(value.encoding() + rest == header_parts(value).encoding() + rest);
                }
                None
            },
        }
    }
}

/// The parts of a block, in the order in which they are written.
pub type BlockParts = (u64, (CryptoHash, (PhaseCertificate, (CryptoHash, Data))));

/// The parts of a block.
pub open spec fn block_parts(block: Block) -> BlockParts {
    (block.height.0, (block.hash, (block.justify, (block.data_hash, block.data))))
}

impl Wire for Block {
    open spec fn encoding(&self) -> Seq<u8> {
        block_parts(*self).encoding()
    }

    open spec fn fits(&self) -> bool {
        block_parts(*self).fits()
    }

    open spec fn says_same(&self, other: &Self) -> bool {
        &&& self.height == other.height
        &&& self.hash == other.hash
        &&& self.justify.says_same(&other.justify)
        &&& self.data_hash == other.data_hash
        &&& self.data.says_same(&other.data)
    }

    proof fn lemma_unique(a: Self, ra: Seq<u8>, b: Self, rb: Seq<u8>) {
        BlockParts::lemma_unique(block_parts(a), ra, block_parts(b), rb);
    }

    fn is_encodable(&self) -> (r: bool) {
        let copy = self.clone();
        let parts: BlockParts = (copy.height.0, (copy.hash, (copy.justify, (copy.data_hash, copy.data))));
        parts.is_encodable()
    }

    fn put(&self, out: &mut Vec<u8>) {
        let copy = self.clone();
        let parts: BlockParts = (copy.height.0, (copy.hash, (copy.justify, (copy.data_hash, copy.data))));
        parts.put(out);
    }

    fn get(bytes: &Vec<u8>, at: usize) -> (r: Option<(Self, usize)>) {
        match BlockParts::get(bytes, at) {
            Some(((height, (hash, (justify, (data_hash, data)))), next)) => Some(
                (Block { height: BlockHeight(height), hash, justify, data_hash, data }, next),
            ),
            None => {
                assert forall|value: Block, rest: Seq<u8>| value.fits() implies bytes@.skip(
                    at as int,
                ) != #[trigger] (value.encoding() + rest) by {
                    assert(value.encoding() + rest == block_parts(value).encoding() + rest);
                }
                None
            },
        }
    }
}

/// The parts of a proposal, in the order in which they are written.
pub type ProposalParts = (u64, (u64, (Block, (Option<TimeoutCertificate>, Option<NoEndorsementCertificate>))));

/// The parts of a proposal.
pub open spec fn proposal_parts(proposal: Proposal) -> ProposalParts {
    (proposal.chain_id.0, (proposal.view.0, (proposal.block, (proposal.tc, proposal.nec))))
}

impl Wire for Proposal {
    open spec fn encoding(&self) -> Seq<u8> {
        proposal_parts(*self).encoding()
    }

    open spec fn fits(&self) -> bool {
        proposal_parts(*self).fits()
    }

    open spec fn says_same(&self, other: &Self) -> bool {
        &&& self.chain_id == other.chain_id
        &&& self.view == other.view
        &&& self.block.says_same(&other.block)
        &&& self.tc.says_same(&other.tc)
        &&& self.nec.says_same(&other.nec)
    }

    proof fn lemma_unique(a: Self, ra: Seq<u8>, b: Self, rb: Seq<u8>) {
        ProposalParts::lemma_unique(proposal_parts(a), ra, proposal_parts(b), rb);
    }

    fn is_encodable(&self) -> (r: bool) {
        let copy = self.clone();
        let parts: ProposalParts = (copy.chain_id.0, (copy.view.0, (copy.block, (copy.tc, copy.nec))));
        parts.is_encodable()
    }

    fn put(&self, out: &mut Vec<u8>) {
        let copy = self.clone();
        let parts: ProposalParts = (copy.chain_id.0, (copy.view.0, (copy.block, (copy.tc, copy.nec))));
        parts.put(out);
    }

    fn get(bytes: &Vec<u8>, at: usize) -> (r: Option<(Self, usize)>) {
        match ProposalParts::get(bytes, at) {
            Some(((chain_id, (view, (block, (tc, nec)))), next)) => Some(
                (Proposal { chain_id: ChainID(chain_id), view: ViewNumber(view), block, tc, nec }, next),
            ),
            None => {
                assert forall|value: Proposal, rest: Seq<u8>| value.fits() implies bytes@.skip(
                    at as int,
                ) != #[trigger] (value.encoding() + rest) by {
                    assert(value.encoding() + rest == proposal_parts(value).encoding() + rest);
                }
                None
            },
        }
    }
}

/// The parts of a request for a body, in the order in which they are written.
pub type BlockDataRequestParts = (u64, (u64, CryptoHash));

/// The parts of a request for a body.
pub open spec fn request_parts(request: BlockDataRequest) -> BlockDataRequestParts {
    (request.chain_id.0, (request.view.0, request.block_hash))
}

impl Wire for BlockDataRequest {
    open spec fn encoding(&self) -> Seq<u8> {
        request_parts(*self).encoding()
    }

    open spec fn fits(&self) -> bool {
        request_parts(*self).fits()
    }

    open spec fn says_same(&self, other: &Self) -> bool {
        &&& self.chain_id == other.chain_id
        &&& self.view == other.view
        &&& self.block_hash == other.block_hash
    }

    proof fn lemma_unique(a: Self, ra: Seq<u8>, b: Self, rb: Seq<u8>) {
        BlockDataRequestParts::lemma_unique(request_parts(a), ra, request_parts(b), rb);
    }

    fn is_encodable(&self) -> (r: bool) {
        let copy = *self;
        let parts: BlockDataRequestParts = (copy.chain_id.0, (copy.view.0, copy.block_hash));
        parts.is_encodable()
    }

    fn put(&self, out: &mut Vec<u8>) {
        let copy = *self;
        let parts: BlockDataRequestParts = (copy.chain_id.0, (copy.view.0, copy.block_hash));
        parts.put(out);
    }

    fn get(bytes: &Vec<u8>, at: usize) -> (r: Option<(Self, usize)>) {
        match BlockDataRequestParts::get(bytes, at) {
            Some(((chain_id, (view, block_hash)), next)) => Some(
                (BlockDataRequest { chain_id: ChainID(chain_id), view: ViewNumber(view), block_hash }, next),
            ),
            None => {
                assert forall|value: BlockDataRequest, rest: Seq<u8>| value.fits() implies bytes@.skip(
                    at as int,
                ) != #[trigger] (value.encoding() + rest) by {
                    assert(value.encoding() + rest == request_parts(value).encoding() + rest);
                }
                None
            },
        }
    }
}

/// The parts of a body, in the order in which they are written.
pub type BlockDataResponseParts = (u64, Block);

/// The parts of a body.
pub open spec fn response_parts(response: BlockDataResponse) -> BlockDataResponseParts {
    (response.view.0, response.block)
}

impl Wire for BlockDataResponse {
    open spec fn encoding(&self) -> Seq<u8> {
        response_parts(*self).encoding()
    }

    open spec fn fits(&self) -> bool {
        response_parts(*self).fits()
    }

    open spec fn says_same(&self, other: &Self) -> bool {
        &&& self.view == other.view
        &&& self.block.says_same(&other.block)
    }

    proof fn lemma_unique(a: Self, ra: Seq<u8>, b: Self, rb: Seq<u8>) {
        BlockDataResponseParts::lemma_unique(response_parts(a), ra, response_parts(b), rb);
    }

    fn is_encodable(&self) -> (r: bool) {
        let copy = self.clone();
        let parts: BlockDataResponseParts = (copy.view.0, copy.block);
        parts.is_encodable()
    }

    fn put(&self, out: &mut Vec<u8>) {
        let copy = self.clone();
        let parts: BlockDataResponseParts = (copy.view.0, copy.block);
        parts.put(out);
    }

    fn get(bytes: &Vec<u8>, at: usize) -> (r: Option<(Self, usize)>) {
        match BlockDataResponseParts::get(bytes, at) {
            Some(((view, block), next)) => Some(
                (BlockDataResponse { view: ViewNumber(view), block }, next),
            ),
            None => {
                assert forall|value: BlockDataResponse, rest: Seq<u8>| value.fits() implies bytes@.skip(
                    at as int,
                ) != #[trigger] (value.encoding() + rest) by {
                    assert(value.encoding() + rest == response_parts(value).encoding() + rest);
                }
                None
            },
        }
    }
}

/// A certificate is written as it is hashed.
pub proof fn law_certificates_are_written_as_hashed(pc: PhaseCertificate)
    ensures
        pc.encoding() == codec::pc_bytes(pc),
{
    lemma_signatures_are_a_vector(pc.signatures@);
    assert(pc.encoding() =~= codec::pc_bytes(pc));
}

} // verus!

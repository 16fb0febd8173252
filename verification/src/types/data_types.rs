//! Numbers, hashes and byte strings.

use vstd::prelude::*;

use std::sync::Arc;

use crate::types::table::TableKey;

verus! {

/// Identifies one blockchain.
#[derive(Clone, Copy, PartialEq, Eq, Structural, PartialOrd, Ord, Hash, Debug)]
pub struct ChainID(pub u64);

impl ChainID {
    pub fn new(value: u64) -> (r: ChainID)
        ensures
            r.0 == value,
    {
        ChainID(value)
    }

    pub fn value(&self) -> (r: u64)
        ensures
            r == self.0,
    {
        self.0
    }
}

/// The number of a view.
#[derive(Clone, Copy, PartialEq, Eq, Structural, PartialOrd, Ord, Hash, Debug)]
pub struct ViewNumber(pub u64);

impl ViewNumber {
    pub fn new(value: u64) -> (r: ViewNumber)
        ensures
            r.0 == value,
    {
        ViewNumber(value)
    }

    pub fn value(&self) -> (r: u64)
        ensures
            r == self.0,
    {
        self.0
    }

    /// The view that a fresh replica starts from.
    pub fn init() -> (r: ViewNumber)
        ensures
            r.0 == 0,
    {
        ViewNumber(0)
    }
}

impl TableKey for ViewNumber {
    type Model = ViewNumber;

    open spec fn model(&self) -> ViewNumber {
        *self
    }

    fn same(&self, other: &Self) -> (r: bool) {
        self.0 == other.0
    }
}

/// The number of ancestors that a block has.
#[derive(Clone, Copy, PartialEq, Eq, Structural, PartialOrd, Ord, Hash, Debug)]
pub struct BlockHeight(pub u64);

impl BlockHeight {
    pub fn new(value: u64) -> (r: BlockHeight)
        ensures
            r.0 == value,
    {
        BlockHeight(value)
    }

    pub fn value(&self) -> (r: u64)
        ensures
            r == self.0,
    {
        self.0
    }
}

impl TableKey for BlockHeight {
    type Model = BlockHeight;

    open spec fn model(&self) -> BlockHeight {
        *self
    }

    fn same(&self, other: &Self) -> (r: bool) {
        self.0 == other.0
    }
}

/// A number of bytes.
#[derive(Clone, Copy, PartialEq, Eq, Structural, PartialOrd, Ord, Hash, Debug)]
pub struct BufferSize(pub u64);

impl BufferSize {
    pub fn new(value: u64) -> (r: BufferSize)
        ensures
            r.0 == value,
    {
        BufferSize(value)
    }

    pub fn value(&self) -> (r: u64)
        ensures
            r == self.0,
    {
        self.0
    }
}

/// The voting power of one validator.
#[derive(Clone, Copy, PartialEq, Eq, Structural, PartialOrd, Ord, Hash, Debug)]
pub struct Power(pub u64);

impl Power {
    pub fn new(value: u64) -> (r: Power)
        ensures
            r.0 == value,
    {
        Power(value)
    }

    pub fn value(&self) -> (r: u64)
        ensures
            r == self.0,
    {
        self.0
    }
}

/// The voting power of a whole validator set.
#[derive(Clone, Copy, PartialEq, Eq, Structural, PartialOrd, Ord, Hash, Debug)]
pub struct TotalPower(pub u128);

impl TotalPower {
    pub fn new(value: u128) -> (r: TotalPower)
        ensures
            r.0 == value,
    {
        TotalPower(value)
    }

    pub fn value(&self) -> (r: u128)
        ensures
            r == self.0,
    {
        self.0
    }
}

/// The number of datums that a block holds.
#[derive(Clone, Copy, PartialEq, Eq, Structural, PartialOrd, Ord, Hash, Debug)]
pub struct DataLen(pub u32);

impl DataLen {
    pub fn new(value: u32) -> (r: DataLen)
        ensures
            r.0 == value,
    {
        DataLen(value)
    }

    pub fn value(&self) -> (r: u32)
        ensures
            r == self.0,
    {
        self.0
    }
}

/// Whether two byte arrays hold the same bytes.
pub fn same_bytes<const N: usize>(a: &[u8; N], b: &[u8; N]) -> (r: bool)
    ensures
        r == (*a == *b),
{
    let mut i: usize = 0;
    while i < N
        invariant
            i <= N,
            forall|j: int| 0 <= j < i ==> a[j] == b[j],
        decreases N - i,
    {
        if a[i] != b[i] {
            return false;
        }
        i = i + 1;
    }
    assert(*a =~= *b);
    true
}

/// Whether two byte vectors hold the same bytes.
pub fn same_byte_vec(a: &Vec<u8>, b: &Vec<u8>) -> (r: bool)
    ensures
        r == (a@ == b@),
{
    if a.len() != b.len() {
        return false;
    }
    let mut i: usize = 0;
    while i < a.len()
        invariant
            i <= a@.len(),
            a@.len() == b@.len(),
            forall|j: int| 0 <= j < i ==> a@[j] == b@[j],
        decreases a@.len() - i,
    {
        if a[i] != b[i] {
            return false;
        }
        i = i + 1;
    }
    assert(a@ =~= b@);
    true
}

/// A SHA-256 digest.
#[derive(Clone, Copy, Eq, Debug)]
pub struct CryptoHash {
    pub bytes: [u8; 32],
}

impl PartialEq for CryptoHash {
    fn eq(&self, other: &Self) -> (r: bool) {
        same_bytes(&self.bytes, &other.bytes)
    }
}

impl vstd::std_specs::cmp::PartialEqSpecImpl for CryptoHash {
    open spec fn obeys_eq_spec() -> bool {
        true
    }

    open spec fn eq_spec(&self, other: &Self) -> bool {
        self.bytes == other.bytes
    }
}

impl CryptoHash {
    pub fn new(bytes: [u8; 32]) -> (r: CryptoHash)
        ensures
            r.bytes == bytes,
    {
        CryptoHash { bytes }
    }

    pub fn bytes(&self) -> (r: [u8; 32])
        ensures
            r == self.bytes,
    {
        self.bytes
    }
}

impl TableKey for CryptoHash {
    type Model = CryptoHash;

    open spec fn model(&self) -> CryptoHash {
        *self
    }

    fn same(&self, other: &Self) -> (r: bool) {
        same_bytes(&self.bytes, &other.bytes)
    }
}

/// The public half of a signing key, which also names a replica.
#[derive(Clone, Copy, Eq, Debug)]
pub struct VerifyingKey {
    pub bytes: [u8; 32],
}

impl PartialEq for VerifyingKey {
    fn eq(&self, other: &Self) -> (r: bool) {
        same_bytes(&self.bytes, &other.bytes)
    }
}

impl vstd::std_specs::cmp::PartialEqSpecImpl for VerifyingKey {
    open spec fn obeys_eq_spec() -> bool {
        true
    }

    open spec fn eq_spec(&self, other: &Self) -> bool {
        self.bytes == other.bytes
    }
}

impl VerifyingKey {
    pub fn new(bytes: [u8; 32]) -> (r: VerifyingKey)
        ensures
            r.bytes == bytes,
    {
        VerifyingKey { bytes }
    }

    pub fn bytes(&self) -> (r: [u8; 32])
        ensures
            r == self.bytes,
    {
        self.bytes
    }
}

impl TableKey for VerifyingKey {
    type Model = VerifyingKey;

    open spec fn model(&self) -> VerifyingKey {
        *self
    }

    fn same(&self, other: &Self) -> (r: bool) {
        same_bytes(&self.bytes, &other.bytes)
    }
}

/// An Ed25519 signature.
#[derive(Clone, Copy, Eq, Debug)]
pub struct SignatureBytes {
    pub bytes: [u8; 64],
}

impl PartialEq for SignatureBytes {
    fn eq(&self, other: &Self) -> (r: bool) {
        same_bytes(&self.bytes, &other.bytes)
    }
}

impl vstd::std_specs::cmp::PartialEqSpecImpl for SignatureBytes {
    open spec fn obeys_eq_spec() -> bool {
        true
    }

    open spec fn eq_spec(&self, other: &Self) -> bool {
        self.bytes == other.bytes
    }
}

impl SignatureBytes {
    pub fn new(bytes: [u8; 64]) -> (r: SignatureBytes)
        ensures
            r.bytes == bytes,
    {
        SignatureBytes { bytes }
    }

    pub fn bytes(&self) -> (r: [u8; 64])
        ensures
            r == self.bytes,
    {
        self.bytes
    }
}

impl TableKey for SignatureBytes {
    type Model = SignatureBytes;

    open spec fn model(&self) -> SignatureBytes {
        *self
    }

    fn same(&self, other: &Self) -> (r: bool) {
        same_bytes(&self.bytes, &other.bytes)
    }
}

/// A byte string.
#[derive(PartialEq, Eq, Debug)]
pub struct Bytes {
    pub bytes: Arc<Vec<u8>>,
}

impl View for Bytes {
    type V = Seq<u8>;

    open spec fn view(&self) -> Seq<u8> {
        self.bytes@
    }
}

impl Clone for Bytes {
    fn clone(&self) -> (r: Self)
        ensures
            r == *self,
    {
        Bytes { bytes: self.bytes.clone() }
    }
}

impl Bytes {
    pub fn new(bytes: Vec<u8>) -> (r: Bytes)
        ensures
            r@ == bytes@,
    {
        Bytes { bytes: Arc::new(bytes) }
    }

    pub fn len(&self) -> (r: usize)
        ensures
            r == self@.len(),
    {
        self.bytes.len()
    }
}

impl TableKey for Bytes {
    type Model = Seq<u8>;

    open spec fn model(&self) -> Seq<u8> {
        self@
    }

    fn same(&self, other: &Self) -> (r: bool) {
        same_byte_vec(&*self.bytes, &*other.bytes)
    }
}

/// One item of a block's data.
#[derive(PartialEq, Eq, Debug)]
pub struct Datum {
    pub bytes: Bytes,
}

impl Clone for Datum {
    fn clone(&self) -> (r: Self)
        ensures
            r == *self,
    {
        Datum { bytes: self.bytes.clone() }
    }
}

impl Datum {
    pub fn new(bytes: Vec<u8>) -> (r: Datum)
        ensures
            r.bytes@ == bytes@,
    {
        Datum { bytes: Bytes::new(bytes) }
    }

}

/// The data that a block carries.
#[derive(PartialEq, Eq, Debug)]
pub struct Data {
    pub datums: Arc<Vec<Datum>>,
}

impl View for Data {
    type V = Seq<Datum>;

    open spec fn view(&self) -> Seq<Datum> {
        self.datums@
    }
}

impl Clone for Data {
    fn clone(&self) -> (r: Self)
        ensures
            r == *self,
    {
        Data { datums: self.datums.clone() }
    }
}

impl Data {
    pub fn new(datums: Vec<Datum>) -> (r: Data)
        ensures
            r@ == datums@,
    {
        Data { datums: Arc::new(datums) }
    }

}

/// The hashes of the blocks that were inserted directly under a block, oldest first.
#[derive(PartialEq, Eq, Debug)]
pub struct ChildrenList {
    pub hashes: Arc<Vec<CryptoHash>>,
}

impl View for ChildrenList {
    type V = Seq<CryptoHash>;

    open spec fn view(&self) -> Seq<CryptoHash> {
        self.hashes@
    }
}

impl Clone for ChildrenList {
    fn clone(&self) -> (r: Self)
        ensures
            r == *self,
    {
        ChildrenList { hashes: self.hashes.clone() }
    }
}

impl ChildrenList {
    pub fn new(hashes: Vec<CryptoHash>) -> (r: ChildrenList)
        ensures
            r@ == hashes@,
    {
        ChildrenList { hashes: Arc::new(hashes) }
    }

    pub fn len(&self) -> (r: usize)
        ensures
            r == self@.len(),
    {
        self.hashes.len()
    }

    pub fn at(&self, index: usize) -> (r: CryptoHash)
        requires
            index < self@.len(),
        ensures
            r == self@[index as int],
    {
        self.hashes[index]
    }
}

/// Signatures of validators, one place for each member of a validator set, in the set's order.
#[derive(PartialEq, Eq, Debug)]
pub struct SignatureSet {
    pub signatures: Arc<Vec<Option<SignatureBytes>>>,
}

impl View for SignatureSet {
    type V = Seq<Option<SignatureBytes>>;

    open spec fn view(&self) -> Seq<Option<SignatureBytes>> {
        self.signatures@
    }
}

impl Clone for SignatureSet {
    fn clone(&self) -> (r: Self)
        ensures
            r == *self,
    {
        SignatureSet { signatures: self.signatures.clone() }
    }
}

impl SignatureSet {
    /// A set of `len` places without a signature.
    pub fn new(len: usize) -> (r: Self)
        ensures
            r@ == Seq::new(len as nat, |i: int| None::<SignatureBytes>),
    {
        let mut signatures: Vec<Option<SignatureBytes>> = Vec::new();
        let mut i: usize = 0;
        while i < len
            invariant
                i <= len,
                signatures@ =~= Seq::new(i as nat, |j: int| None::<SignatureBytes>),
            decreases len - i,
        {
            signatures.push(None);
            i = i + 1;
        }
        SignatureSet { signatures: Arc::new(signatures) }
    }

    /// The set of no places, which the genesis certificate carries.
    pub fn genesis() -> (r: Self)
        ensures
            r@ == Seq::<Option<SignatureBytes>>::empty(),
    {
        SignatureSet { signatures: Arc::new(Vec::new()) }
    }

    pub fn len(&self) -> (r: usize)
        ensures
            r == self@.len(),
    {
        self.signatures.len()
    }

    /// The signature at `index`.
    pub fn get(&self, index: usize) -> (r: Option<SignatureBytes>)
        requires
            index < self@.len(),
        ensures
            r == self@[index as int],
    {
        self.signatures[index]
    }

    /// Put a signature at `index`.
    pub fn set(&mut self, index: usize, signature: Option<SignatureBytes>)
        requires
            index < old(self)@.len(),
        ensures
            final(self)@ == old(self)@.update(index as int, signature),
    {
        let mut signatures: Vec<Option<SignatureBytes>> = Vec::new();
        let mut i: usize = 0;
        while i < self.signatures.len()
            invariant
                i <= self@.len(),
                signatures@ =~= self@.take(i as int),
            decreases self@.len() - i,
        {
            signatures.push(self.signatures[i]);
            i = i + 1;
        }
        signatures.set(index, signature);
        assert(signatures@ =~= self@.update(index as int, signature));
        self.signatures = Arc::new(signatures);
    }
}

/// Whether `hash` occurs in `hashes`.
pub fn contains_hash(hashes: &Vec<CryptoHash>, hash: &CryptoHash) -> (r: bool)
    ensures
        r == hashes@.contains(*hash),
{
    let mut i: usize = 0;
    while i < hashes.len()
        invariant
            i <= hashes@.len(),
            forall|j: int| 0 <= j < i ==> hashes@[j] != *hash,
        decreases hashes@.len() - i,
    {
        if hashes[i] == *hash {
            assert(hashes@[i as int] == *hash);
            return true;
        }
        i = i + 1;
    }
    false
}

/// A copy of a list of hashes.
pub fn copy_hashes(hashes: &Vec<CryptoHash>) -> (r: Vec<CryptoHash>)
    ensures
        r@ == hashes@,
{
    let mut r: Vec<CryptoHash> = Vec::new();
    let mut i: usize = 0;
    while i < hashes.len()
        invariant
            i <= hashes@.len(),
            r@ == hashes@.take(i as int),
        decreases hashes@.len() - i,
    {
        r.push(hashes[i]);
        i = i + 1;
        assert(r@ =~= hashes@.take(i as int));
    }
    assert(hashes@.take(hashes@.len() as int) =~= hashes@);
    r
}

/// The test that a hash is not `hash`.
pub open spec fn differs_from(hash: CryptoHash) -> spec_fn(CryptoHash) -> bool {
    |h: CryptoHash| h != hash
}

/// `hashes` without any occurrence of `hash`.
pub open spec fn without(hashes: Seq<CryptoHash>, hash: CryptoHash) -> Seq<CryptoHash> {
    hashes.filter(differs_from(hash))
}

/// The list of hashes without any occurrence of `hash`.
pub fn remove_hash(hashes: &Vec<CryptoHash>, hash: &CryptoHash) -> (r: Vec<CryptoHash>)
    ensures
        r@ == without(hashes@, *hash),
{
    let mut r: Vec<CryptoHash> = Vec::new();
    let mut i: usize = 0;
    let ghost keep = differs_from(*hash);
    proof {
        reveal(Seq::filter);
        assert(hashes@.take(0).filter(keep) =~= Seq::<CryptoHash>::empty());
    }
    while i < hashes.len()
        invariant
            i <= hashes@.len(),
            r@ == hashes@.take(i as int).filter(keep),
            keep == differs_from(*hash),
        decreases hashes@.len() - i,
    {
        proof {
            reveal(Seq::filter);
            assert(hashes@.take(i as int + 1).drop_last() =~= hashes@.take(i as int));
        }
        if hashes[i] != *hash {
            r.push(hashes[i]);
        }
        i = i + 1;
    }
    assert(hashes@.take(hashes@.len() as int) =~= hashes@);
    r
}

} // verus!

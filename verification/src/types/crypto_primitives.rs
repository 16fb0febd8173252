//! Hashing and signing.

use vstd::prelude::*;

use ed25519_dalek::Signer;
use ed25519_dalek::Verifier;
use sha2::Digest;

use crate::types::data_types::{CryptoHash, SignatureBytes, VerifyingKey};

verus! {

/// The SHA-256 digest of a byte string.
pub uninterp spec fn sha256(bytes: Seq<u8>) -> Seq<u8>;

/// The Ed25519 public key of a secret key.
pub uninterp spec fn ed25519_public_key(secret: Seq<u8>) -> Seq<u8>;

/// The Ed25519 signature that a secret key makes of a message.
pub uninterp spec fn ed25519_signature(secret: Seq<u8>, message: Seq<u8>) -> Seq<u8>;

/// Whether Ed25519 verification of a signature of a message under a public key succeeds.
pub uninterp spec fn ed25519_accepts(key: Seq<u8>, message: Seq<u8>, signature: Seq<u8>) -> bool;

/// `sha2::Sha256::digest`. Claimed: the digest is a function of the bytes alone, named
/// [`sha256`].
#[verifier::external_body]
fn sha256_digest(bytes: &Vec<u8>) -> (r: [u8; 32])
    ensures
        r@ == sha256(bytes@),
{
    sha2::Sha256::digest(bytes.as_slice()).into()
}

/// `ed25519_dalek::SigningKey::verifying_key`. Claimed: the public key is a function of the
/// secret key alone, named [`ed25519_public_key`].
#[verifier::external_body]
fn derive_public_key(secret: &[u8; 32]) -> (r: [u8; 32])
    ensures
        r@ == ed25519_public_key(secret@),
{
    ed25519_dalek::SigningKey::from_bytes(secret).verifying_key().to_bytes()
}

/// `ed25519_dalek::SigningKey::sign`. Claimed: signing is deterministic, with the result named
/// [`ed25519_signature`], and the signature is accepted under the signer's own public key.
#[verifier::external_body]
fn make_signature(secret: &[u8; 32], message: &Vec<u8>) -> (r: [u8; 64])
    ensures
        r@ == ed25519_signature(secret@, message@),
        ed25519_accepts(ed25519_public_key(secret@), message@, r@),
{
    ed25519_dalek::SigningKey::from_bytes(secret).sign(message.as_slice()).to_bytes()
}

/// `ed25519_dalek::VerifyingKey::verify`. Claimed: the verdict is a function of key, message and
/// signature alone, named [`ed25519_accepts`]. Bytes that encode no public key accept nothing.
#[verifier::external_body]
fn check_signature(key: &[u8; 32], message: &Vec<u8>, signature: &[u8; 64]) -> (r: bool)
    ensures
        r == ed25519_accepts(key@, message@, signature@),
{
    match ed25519_dalek::VerifyingKey::from_bytes(key) {
        Ok(key) => key.verify(
            message.as_slice(),
            &ed25519_dalek::Signature::from_bytes(signature),
        ).is_ok(),
        Err(_) => false,
    }
}

/// Hash a byte string.
pub fn hash_bytes(bytes: &Vec<u8>) -> (r: CryptoHash)
    ensures
        r.bytes@ == sha256(bytes@),
{
    CryptoHash { bytes: sha256_digest(bytes) }
}

impl VerifyingKey {
    /// Whether `signature` is a valid signature of `message` by the holder of this key.
    pub open spec fn accepts(&self, message: Seq<u8>, signature: SignatureBytes) -> bool {
        ed25519_accepts(self.bytes@, message, signature.bytes@)
    }

    /// Check a signature of `message` by the holder of this key.
    pub fn verify(&self, message: &Vec<u8>, signature: &SignatureBytes) -> (r: bool)
        ensures
            r == self.accepts(message@, *signature),
    {
        check_signature(&self.bytes, message, &signature.bytes)
    }

    pub fn to_bytes(&self) -> (r: [u8; 32])
        ensures
            r == self.bytes,
    {
        self.bytes
    }
}

/// The secret half of a signing key.
#[derive(Clone, Copy, Debug)]
pub struct SigningKey {
    pub bytes: [u8; 32],
}

impl SigningKey {
    pub fn from_bytes(bytes: &[u8; 32]) -> (r: SigningKey)
        ensures
            r.bytes == *bytes,
    {
        SigningKey { bytes: *bytes }
    }

    /// The public half of the key.
    pub fn verifying_key(&self) -> (r: VerifyingKey)
        ensures
            r.bytes@ == ed25519_public_key(self.bytes@),
    {
        VerifyingKey { bytes: derive_public_key(&self.bytes) }
    }
}

/// A signing key together with its public half.
#[derive(Clone, Copy, Debug)]
pub struct Keypair {
    signing_key: SigningKey,
    verifying_key: VerifyingKey,
}

impl Keypair {
    #[verifier::type_invariant]
    spec fn halves_match(self) -> bool {
        self.verifying_key.bytes@ == ed25519_public_key(self.signing_key.bytes@)
    }

    /// The secret bytes of the pair.
    pub closed spec fn secret(&self) -> Seq<u8> {
        self.signing_key.bytes@
    }

    /// Whether `signature` is the one that the pair makes of `message`.
    pub open spec fn signs(&self, message: Seq<u8>, signature: SignatureBytes) -> bool {
        signature.bytes@ == ed25519_signature(self.secret(), message)
    }

    /// The signature that the pair makes of `message`.
    pub open spec fn signature_of(&self, message: Seq<u8>) -> SignatureBytes {
        choose|signature: SignatureBytes| self.signs(message, signature)
    }

    /// There is one signature that the pair makes of a message.
    pub proof fn lemma_signature_of(&self, message: Seq<u8>, signature: SignatureBytes)
        requires
            self.signs(message, signature),
        ensures
            signature == self.signature_of(message),
    {
        let chosen = self.signature_of(message);
        assert(self.signs(message, chosen));
        assert(chosen.bytes =~= signature.bytes) by {
            assert(chosen.bytes@ == signature.bytes@);
            assert forall|i: int| 0 <= i < 64 implies chosen.bytes[i] == signature.bytes[i] by {
                assert(chosen.bytes@[i] == signature.bytes@[i]);
            }
        }
    }

    /// The public key of the pair.
    pub closed spec fn public_key(&self) -> VerifyingKey {
        self.verifying_key
    }

    pub fn new(signing_key: SigningKey) -> (r: Keypair)
        ensures
            r.secret() == signing_key.bytes@,
            r.public_key().bytes@ == ed25519_public_key(signing_key.bytes@),
    {
        let verifying_key = signing_key.verifying_key();
        Keypair { signing_key, verifying_key }
    }

    pub fn public(&self) -> (r: VerifyingKey)
        ensures
            r == self.public_key(),
    {
        self.verifying_key
    }

    /// Sign `message`. The holder's own key accepts the signature.
    pub fn sign(&self, message: &Vec<u8>) -> (r: SignatureBytes)
        ensures
            self.signs(message@, r),
            self.public_key().accepts(message@, r),
    {
        proof {
            use_type_invariant(self);
        }
        SignatureBytes { bytes: make_signature(&self.signing_key.bytes, message) }
    }
}

} // verus!

//! ECDSA over secp256k1, modelled as plain byte strings: a public key is a
//! 33-byte compressed SEC1 point, a signature 64 bytes, a private key a
//! 32-byte scalar. The curve operations themselves are trusted calls into
//! the `k256` crate.
use vstd::prelude::*;
use k256::elliptic_curve::Generate;
use k256::ecdsa::signature::Signer;
use k256::ecdsa::signature::Verifier;

verus! {

/// A compressed SEC1 encoding of a secp256k1 verifying key. Keys made by
/// this library are 33 bytes; arbitrary bytes can arrive from the wire and
/// simply fail verification.
#[derive(Clone, Debug)]
pub struct PublicKey(pub Vec<u8>);

impl View for PublicKey {
    type V = Seq<u8>;

    open spec fn view(&self) -> Seq<u8> {
        self.0@
    }
}

impl PublicKey {
    /// A copy of this key with the same bytes.
    pub fn duplicate(&self) -> (r: PublicKey)
        ensures
            r@ == self@,
    {
        let bytes = self.0.clone();
        proof {
            assert(bytes@ =~= self.0@);
        }
        PublicKey(bytes)
    }

    /// Whether two keys are the same bytes.
    pub fn key_eq(&self, other: &PublicKey) -> (r: bool)
        ensures
            r == (self@ == other@),
    {
        bytes_eq(&self.0, &other.0)
    }
}

/// A 64-byte fixed-width ECDSA signature.
#[derive(Clone, Debug)]
pub struct Signature(pub Vec<u8>);

impl View for Signature {
    type V = Seq<u8>;

    open spec fn view(&self) -> Seq<u8> {
        self.0@
    }
}

/// A secp256k1 signing key together with its verifying key. Only
/// [`PrivateKey::new_key`] builds one, so the secret bytes are always a
/// valid scalar.
#[derive(Clone, Debug)]
pub struct PrivateKey {
    secret: Vec<u8>,
    public: PublicKey,
}

impl PrivateKey {
    /// The secret scalar bytes, as an abstract value.
    pub closed spec fn secret_view(&self) -> Seq<u8> {
        self.secret@
    }

    /// The verifying key that matches this signing key.
    pub fn public_key(&self) -> (r: PublicKey)
        requires
            self.wf(),
        ensures
            r@ == pubkey_of(self.secret_view()),
            r@ == self.public_view(),
    {
        self.public.duplicate()
    }

    /// The verifying key's bytes.
    pub closed spec fn public_view(&self) -> Seq<u8> {
        self.public@
    }

    /// The key pair is internally consistent.
    pub closed spec fn wf(&self) -> bool {
        self.public@ == pubkey_of(self.secret@) && self.public@.len() == 33
    }

    /// Generates a fresh random key pair.
    ///
    /// Relies on `k256::ecdsa::SigningKey::try_generate_from_rng` (a fresh
    /// uniformly random secp256k1 signing key from the thread's CSPRNG),
    /// `SigningKey::to_bytes` (its 32-byte scalar) and
    /// `VerifyingKey::to_sec1_bytes` (the 33-byte compressed point of the
    /// matching verifying key).
    #[verifier::external_body]
    pub fn new_key() -> (r: PrivateKey)
        ensures
            r.wf(),
            r.secret_view().len() == 32,
            r.public_view() == pubkey_of(r.secret_view()),
            r.public_view().len() == 33,
    {
        let sk = match k256::ecdsa::SigningKey::try_generate_from_rng(&mut rand::rng()) {
            Ok(k) => k,
            Err(never) => match never {},
        };
        let public = PublicKey(sk.verifying_key().to_sec1_bytes().to_vec());
        PrivateKey { secret: sk.to_bytes().to_vec(), public }
    }
}

/// The compressed SEC1 point of the verifying key that matches a secret
/// scalar; what `k256::ecdsa::SigningKey::verifying_key` returns, a pure
/// function of the scalar.
pub uninterp spec fn pubkey_of(secret: Seq<u8>) -> Seq<u8>;

/// The RFC 6979 deterministic ECDSA signature of a message under a secret
/// scalar; what `k256::ecdsa::SigningKey::sign` returns, a pure function of
/// message and scalar.
pub uninterp spec fn sig_sign(msg: Seq<u8>, secret: Seq<u8>) -> Seq<u8>;

/// Whether a signature verifies over a message under a public key; what
/// `k256::ecdsa::VerifyingKey::verify` decides, a pure function of the three
/// byte strings (malformed keys or signatures verify as false).
pub uninterp spec fn sig_verify(sig: Seq<u8>, msg: Seq<u8>, key: Seq<u8>) -> bool;

/// Signs a message with a private key.
///
/// Relies on `k256::ecdsa::SigningKey::sign`: RFC 6979 deterministic ECDSA
/// over the SHA-256 of the message, so the signature is a function of message
/// and key alone, is 64 bytes in fixed form, and verifies under the matching
/// verifying key.
#[verifier::external_body]
pub fn sign_bytes(msg: &Vec<u8>, key: &PrivateKey) -> (r: Signature)
    requires
        key.wf(),
    ensures
        r@ == sig_sign(msg@, key.secret_view()),
        r@.len() == 64,
        sig_verify(r@, msg@, pubkey_of(key.secret_view())),
{
    let sk = match k256::ecdsa::SigningKey::from_slice(&key.secret) {
        Ok(k) => k,
        Err(_) => return Signature(vec![0u8; 64]),
    };
    let sig: k256::ecdsa::Signature = sk.sign(msg);
    Signature(sig.to_bytes().to_vec())
}

/// Verifies a signature over a message under a public key.
///
/// Relies on `k256::ecdsa::VerifyingKey::verify`: true exactly when `sig`
/// parses as a signature, `key` parses as a point, and the signature is valid
/// over the SHA-256 of the message; a pure function of the three byte
/// strings.
#[verifier::external_body]
pub fn verify_bytes(sig: &Signature, msg: &Vec<u8>, key: &PublicKey) -> (r: bool)
    ensures
        r == sig_verify(sig@, msg@, key@),
{
    let vk = match k256::ecdsa::VerifyingKey::from_sec1_bytes(&key.0) {
        Ok(k) => k,
        Err(_) => return false,
    };
    let s = match k256::ecdsa::Signature::from_slice(&sig.0) {
        Ok(s) => s,
        Err(_) => return false,
    };
    vk.verify(msg, &s).is_ok()
}

impl Signature {
    /// Signs an output hash: ECDSA over the hash's 32-byte big-endian
    /// encoding.
    pub fn sign_output(output_hash: &crate::sha256::Hash, private_key: &PrivateKey) -> (r:
        Signature)
        requires
            private_key.wf(),
        ensures
            r@ == sig_sign(
                crate::codec::be_bytes(output_hash@, 32),
                private_key.secret_view(),
            ),
            sig_verify(
                r@,
                crate::codec::be_bytes(output_hash@, 32),
                pubkey_of(private_key.secret_view()),
            ),
    {
        let msg = output_hash.as_bytes();
        sign_bytes(&msg, private_key)
    }

    /// Whether this signature verifies over an output hash under a key.
    pub fn verify(&self, output_hash: &crate::sha256::Hash, public_key: &PublicKey) -> (r:
        bool)
        ensures
            r == sig_verify(self@, crate::codec::be_bytes(output_hash@, 32), public_key@),
    {
        let msg = output_hash.as_bytes();
        verify_bytes(self, &msg, public_key)
    }
}

/// Whether two byte vectors hold the same bytes.
pub fn bytes_eq(a: &Vec<u8>, b: &Vec<u8>) -> (r: bool)
    ensures
        r == (a@ == b@),
{
    if a.len() != b.len() {
        return false;
    }
    let n: usize = a.len();
    let mut i: usize = 0;
    while i < n
        invariant
            n == a@.len() == b@.len(),
            i <= n,
            forall|j: int| 0 <= j < i ==> a@[j] == b@[j],
        decreases n - i,
    {
        if a[i] != b[i] {
            return false;
        }
        i = i + 1;
    }
    proof {
        assert(a@ =~= b@);
    }
    true
}

/// A copy of a byte vector with the same bytes.
pub fn copy_bytes(a: &Vec<u8>) -> (r: Vec<u8>)
    ensures
        r@ == a@,
{
    let r = a.clone();
    proof {
        assert(r@ =~= a@);
    }
    r
}

} // verus!

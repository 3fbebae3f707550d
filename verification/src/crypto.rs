//! Zero-trust payload encryption with ChaCha20-Poly1305 (AEAD).
use vstd::prelude::*;
use chacha20poly1305::aead::{Aead, KeyInit};
use chacha20poly1305::{ChaCha20Poly1305, Key, Nonce};
use rand::RngCore;

verus! {

/// Length of the nonce that prefixes every sealed payload.
pub const NONCE_LEN: usize = 12;

/// Length of the Poly1305 authentication tag that ends every sealed payload.
pub const TAG_LEN: usize = 16;

/// The ChaCha20-Poly1305 ciphertext (message followed by its 16-byte tag)
/// of `msg` under `key` and `nonce`, with no associated data.
pub uninterp spec fn aead_seal(key: Seq<u8>, nonce: Seq<u8>, msg: Seq<u8>) -> Seq<u8>;

/// The ChaCha20-Poly1305 decryption of `ct` under `key` and `nonce`, with no
/// associated data: `None` when the tag does not authenticate the bytes.
pub uninterp spec fn aead_open(key: Seq<u8>, nonce: Seq<u8>, ct: Seq<u8>) -> Option<Seq<u8>>;

/// The largest message length (in bytes) that the cipher accepts: fewer than
/// `u32::MAX` blocks of 64 bytes.
pub open spec fn aead_accepts(len: nat) -> bool {
    len / 64 < u32::MAX
}

/// Calls `ChaCha20Poly1305::new` on `key` and `Aead::encrypt` on the result
/// with `nonce` and `msg`. Claimed: it fails exactly when `msg` reaches
/// `u32::MAX` blocks of 64 bytes (the crate's block limit); otherwise the
/// ciphertext is the message's length plus the 16-byte tag, and decrypting
/// it with the same key and nonce gives `msg` back.
#[verifier::external_body]
fn chacha_seal(key: &[u8; 32], nonce: &[u8], msg: &[u8]) -> (r: Option<Vec<u8>>)
    requires
        nonce@.len() == NONCE_LEN,
    ensures
        r is Some <==> aead_accepts(msg@.len()),
        r matches Some(c) ==> c@ == aead_seal(key@, nonce@, msg@),
        r matches Some(c) ==> c@.len() == msg@.len() + TAG_LEN,
        r matches Some(c) ==> aead_open(key@, nonce@, c@) == Some(msg@),
{
    ChaCha20Poly1305::new(Key::from_slice(key)).encrypt(Nonce::from_slice(nonce), msg).ok()
}

/// Calls `ChaCha20Poly1305::new` on `key` and `Aead::decrypt` on the result
/// with `nonce` and `ct`. Claimed: the result is the named decryption, and
/// bytes shorter than the tag never decrypt.
#[verifier::external_body]
fn chacha_open(key: &[u8; 32], nonce: &[u8], ct: &[u8]) -> (r: Option<Vec<u8>>)
    requires
        nonce@.len() == NONCE_LEN,
    ensures
        r matches Some(p) ==> aead_open(key@, nonce@, ct@) == Some(p@),
        r is None ==> aead_open(key@, nonce@, ct@) is None,
        ct@.len() < TAG_LEN ==> r is None,
{
    ChaCha20Poly1305::new(Key::from_slice(key)).decrypt(Nonce::from_slice(nonce), ct).ok()
}

/// Calls `rand::rng().fill_bytes` on a fresh 12-byte array. Nothing is
/// claimed of the bytes, which are random.
#[verifier::external_body]
fn random_nonce() -> (r: [u8; 12]) {
    let mut nonce = [0u8; 12];
    rand::rng().fill_bytes(&mut nonce);
    nonce
}

/// Why a payload could not be sealed or opened.
#[derive(Debug, Clone, Copy, PartialEq, Eq, Structural)]
pub enum CryptoError {
    /// The cipher refused the plaintext (too long).
    EncryptionFailed,
    /// The payload is shorter than a nonce and a tag.
    PayloadTooShort,
    /// The tag does not authenticate the payload (tampered or foreign key).
    AuthenticationFailed,
}

/// The sealed form of `msg` under `key` with `nonce`: the nonce followed by
/// the ciphertext and tag, or `None` when the cipher refuses the message.
pub open spec fn spec_sealed(key: Seq<u8>, nonce: Seq<u8>, msg: Seq<u8>) -> Option<Seq<u8>> {
    if aead_accepts(msg.len()) {
        Some(nonce + aead_seal(key, nonce, msg))
    } else {
        None
    }
}

/// What opening `payload` under `key` gives: payloads shorter than a nonce
/// and a tag are refused; otherwise the first 12 bytes are the nonce and
/// the rest must authenticate.
pub open spec fn spec_opened(key: Seq<u8>, payload: Seq<u8>) -> Result<Seq<u8>, CryptoError> {
    if payload.len() < NONCE_LEN + TAG_LEN {
        Err(CryptoError::PayloadTooShort)
    } else {
        match aead_open(key, payload.subrange(0, NONCE_LEN as int), payload.subrange(NONCE_LEN as int, payload.len() as int)) {
            Some(p) => Ok(p),
            None => Err(CryptoError::AuthenticationFailed),
        }
    }
}

/// Copies `s[from..to]` into a new vector.
fn copy_range(s: &[u8], from: usize, to: usize) -> (r: Vec<u8>)
    requires
        from <= to <= s@.len(),
    ensures
        r@ == s@.subrange(from as int, to as int),
{
    let mut r: Vec<u8> = Vec::new();
    let mut i = from;
    while i < to
        invariant
            from <= i <= to <= s@.len(),
            r@ == s@.subrange(from as int, i as int),
        decreases to - i,
    {
        r.push(s[i]);
        i = i + 1;
        assert(r@ =~= s@.subrange(from as int, i as int));
    }
    r
}

/// Zero-trust payload encryptor using ChaCha20-Poly1305 (AEAD).
/// Adds 28 bytes of overhead (12 byte nonce + 16 byte MAC).
pub struct PayloadEncryptor {
    key: [u8; 32],
}

impl PayloadEncryptor {
    /// The key the encryptor seals and opens with.
    pub closed spec fn key(&self) -> Seq<u8> {
        self.key@
    }

    /// Initialize from a 32-byte key.
    pub fn new(key_bytes: &[u8; 32]) -> (r: Self)
        ensures
            r.key() == key_bytes@,
    {
        PayloadEncryptor { key: *key_bytes }
    }

    /// Seals `plaintext` with the given nonce: the nonce followed by the
    /// ciphertext and its tag.
    pub fn seal_with_nonce(&self, plaintext: &[u8], nonce: &[u8]) -> (r: Result<Vec<u8>, CryptoError>)
        requires
            nonce@.len() == NONCE_LEN,
        ensures
            r is Ok <==> spec_sealed(self.key(), nonce@, plaintext@) is Some,
            r matches Ok(v) ==> Some(v@) == spec_sealed(self.key(), nonce@, plaintext@),
            r matches Ok(v) ==> v@.len() == plaintext@.len() + NONCE_LEN + TAG_LEN,
            r matches Ok(v) ==> v@.subrange(0, NONCE_LEN as int) == nonce@,
            r matches Ok(v) ==> spec_opened(self.key(), v@) == Ok::<Seq<u8>, CryptoError>(plaintext@),
            r matches Err(e) ==> e == CryptoError::EncryptionFailed,
    {
        match chacha_seal(&self.key, nonce, plaintext) {
            Some(ciphertext) => {
                let mut out: Vec<u8> = Vec::new();
                let mut i: usize = 0;
                while i < nonce.len()
                    invariant
                        i <= nonce@.len(),
                        out@ == nonce@.subrange(0, i as int),
                    decreases nonce@.len() - i,
                {
                    out.push(nonce[i]);
                    i = i + 1;
                    assert(out@ =~= nonce@.subrange(0, i as int));
                }
                let mut j: usize = 0;
                while j < ciphertext.len()
                    invariant
                        j <= ciphertext@.len(),
                        out@ == nonce@ + ciphertext@.subrange(0, j as int),
                    decreases ciphertext@.len() - j,
                {
                    out.push(ciphertext[j]);
                    j = j + 1;
                    assert(out@ =~= nonce@ + ciphertext@.subrange(0, j as int));
                }
                proof {
                    assert(ciphertext@.subrange(0, ciphertext@.len() as int) =~= ciphertext@);
                    assert(out@.subrange(0, NONCE_LEN as int) =~= nonce@);
                    assert(out@.subrange(NONCE_LEN as int, out@.len() as int) =~= ciphertext@);
                }
                Ok(out)
            },
            None => Err(CryptoError::EncryptionFailed),
        }
    }

    /// Encrypts `plaintext` under a fresh random nonce; the result opens
    /// back to `plaintext`.
    pub fn encrypt(&self, plaintext: &[u8]) -> (r: Result<Vec<u8>, CryptoError>)
        ensures
            r is Ok <==> aead_accepts(plaintext@.len()),
            r matches Ok(v) ==> v@.len() == plaintext@.len() + NONCE_LEN + TAG_LEN,
            r matches Ok(v) ==> Some(v@) == spec_sealed(self.key(), v@.subrange(0, NONCE_LEN as int), plaintext@),
            r matches Ok(v) ==> spec_opened(self.key(), v@) == Ok::<Seq<u8>, CryptoError>(plaintext@),
            r matches Err(e) ==> e == CryptoError::EncryptionFailed,
    {
        let nonce = random_nonce();
        let r = self.seal_with_nonce(plaintext, nonce.as_slice());
        r
    }

    /// Decrypts a sealed payload: the nonce is its first 12 bytes, the rest
    /// is the ciphertext and tag.
    pub fn decrypt(&self, payload: &[u8]) -> (r: Result<Vec<u8>, CryptoError>)
        ensures
            match r {
                Ok(p) => spec_opened(self.key(), payload@) == Ok::<Seq<u8>, CryptoError>(p@),
                Err(e) => spec_opened(self.key(), payload@) == Err::<Seq<u8>, CryptoError>(e),
            },
    {
        if payload.len() < NONCE_LEN + TAG_LEN {
            return Err(CryptoError::PayloadTooShort);
        }
        let nonce = copy_range(payload, 0, NONCE_LEN);
        let ciphertext = copy_range(payload, NONCE_LEN, payload.len());
        match chacha_open(&self.key, nonce.as_slice(), ciphertext.as_slice()) {
            Some(plaintext) => Ok(plaintext),
            None => Err(CryptoError::AuthenticationFailed),
        }
    }
}

} // verus!

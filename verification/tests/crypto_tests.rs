use chacha20poly1305::aead::{Aead, KeyInit};
use chacha20poly1305::{ChaCha20Poly1305, Key, Nonce};
use ringil::crypto::{CryptoError, PayloadEncryptor};

const KEY: [u8; 32] = [7u8; 32];

#[test]
fn encrypt_then_decrypt_gives_plaintext_back() {
    let enc = PayloadEncryptor::new(&KEY);
    let msg = b"swarm frame bytes".to_vec();
    let sealed = enc.encrypt(&msg).unwrap();
    assert_eq!(sealed.len(), msg.len() + 28);
    assert_eq!(enc.decrypt(&sealed).unwrap(), msg);
    let empty = enc.encrypt(&[]).unwrap();
    assert_eq!(empty.len(), 28);
    assert_eq!(enc.decrypt(&empty).unwrap(), Vec::<u8>::new());
}

#[test]
fn sealed_payload_is_nonce_then_ciphertext() {
    let enc = PayloadEncryptor::new(&KEY);
    let nonce = [3u8; 12];
    let sealed = enc.seal_with_nonce(b"hello", &nonce).unwrap();
    let expected = ChaCha20Poly1305::new(Key::from_slice(&KEY)).encrypt(Nonce::from_slice(&nonce), b"hello".as_ref()).unwrap();
    assert_eq!(&sealed[..12], &nonce);
    assert_eq!(&sealed[12..], expected.as_slice());
    assert_ne!(&sealed[12..17], b"hello");
}

#[test]
fn short_payload_is_refused() {
    let enc = PayloadEncryptor::new(&KEY);
    assert_eq!(enc.decrypt(&[0u8; 27]), Err(CryptoError::PayloadTooShort));
    assert_eq!(enc.decrypt(&[]), Err(CryptoError::PayloadTooShort));
}

#[test]
fn tampered_or_foreign_payload_fails_authentication() {
    let enc = PayloadEncryptor::new(&KEY);
    let mut sealed = enc.encrypt(b"status").unwrap();
    let last = sealed.len() - 1;
    sealed[last] ^= 1;
    assert_eq!(enc.decrypt(&sealed), Err(CryptoError::AuthenticationFailed));
    let other = PayloadEncryptor::new(&[8u8; 32]);
    let sealed = enc.encrypt(b"status").unwrap();
    assert_eq!(other.decrypt(&sealed), Err(CryptoError::AuthenticationFailed));
    assert_eq!(enc.decrypt(&[0u8; 28]), Err(CryptoError::AuthenticationFailed));
}

#[test]
fn fresh_nonces_differ() {
    let enc = PayloadEncryptor::new(&KEY);
    let a = enc.encrypt(b"x").unwrap();
    let b = enc.encrypt(b"x").unwrap();
    assert_ne!(a[..12], b[..12]);
}

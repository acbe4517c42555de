use vstd::prelude::*;
use aes_gcm::aead::{Aead, KeyInit, Payload};
use crate::cipher::{Cipher, KEY_LEN, NONCE_LEN, TAG_LEN};
use crate::key::SecretKey;

verus! {

/// ChaCha20-Poly1305 ciphertext followed by its tag, for key, nonce,
/// associated data and plaintext.
pub uninterp spec fn chacha_seal(k: Seq<u8>, n: Seq<u8>, a: Seq<u8>, p: Seq<u8>) -> Seq<u8>;

/// The plaintext that ChaCha20-Poly1305 recovers from ciphertext and tag,
/// or `None` when the tag does not verify.
pub uninterp spec fn chacha_open(k: Seq<u8>, n: Seq<u8>, a: Seq<u8>, c: Seq<u8>) -> Option<
    Seq<u8>,
>;

/// AES-256-GCM ciphertext followed by its tag.
pub uninterp spec fn aes_seal(k: Seq<u8>, n: Seq<u8>, a: Seq<u8>, p: Seq<u8>) -> Seq<u8>;

/// The plaintext that AES-256-GCM recovers, or `None` when the tag does not
/// verify.
pub uninterp spec fn aes_open(k: Seq<u8>, n: Seq<u8>, a: Seq<u8>, c: Seq<u8>) -> Option<Seq<u8>>;

/// Sealed bytes (ciphertext, then tag) under the chosen cipher.
pub open spec fn seal_of(c: Cipher, k: Seq<u8>, n: Seq<u8>, a: Seq<u8>, p: Seq<u8>) -> Seq<u8> {
    match c {
        Cipher::ChaCha20Poly1305 => chacha_seal(k, n, a, p),
        Cipher::Aes256Gcm => aes_seal(k, n, a, p),
    }
}

/// What opening sealed bytes under the chosen cipher gives.
pub open spec fn open_of(c: Cipher, k: Seq<u8>, n: Seq<u8>, a: Seq<u8>, s: Seq<u8>) -> Option<
    Seq<u8>,
> {
    match c {
        Cipher::ChaCha20Poly1305 => chacha_open(k, n, a, s),
        Cipher::Aes256Gcm => aes_open(k, n, a, s),
    }
}

/// Relies on `Aead::encrypt` of `chacha20poly1305::ChaCha20Poly1305`: it
/// fails only for messages of at least 64 * (2^32 - 1) bytes, appends a
/// 16-byte tag, and what it seals opens again to the message.
#[verifier::external_body]
fn chacha_encrypt(k: &[u8], n: &[u8], a: &[u8], p: &[u8]) -> (r: Option<Vec<u8>>)
    requires
        k@.len() == KEY_LEN,
        n@.len() == NONCE_LEN,
    ensures
        p@.len() <= u32::MAX && a@.len() <= u32::MAX ==> r is Some,
        r matches Some(c) ==> c@ == chacha_seal(k@, n@, a@, p@),
        r matches Some(c) ==> c@.len() == p@.len() + TAG_LEN,
        r matches Some(c) ==> chacha_open(k@, n@, a@, c@) == Some(p@),
{
    let cipher = chacha20poly1305::ChaCha20Poly1305::new(chacha20poly1305::Key::from_slice(k));
    cipher.encrypt(chacha20poly1305::Nonce::from_slice(n), Payload { msg: p, aad: a }).ok()
}

/// Relies on `Aead::decrypt` of `chacha20poly1305::ChaCha20Poly1305`: the
/// plaintext is 16 bytes shorter than its input, and nothing is returned
/// when the tag does not verify.
#[verifier::external_body]
fn chacha_decrypt(k: &[u8], n: &[u8], a: &[u8], c: &[u8]) -> (r: Option<Vec<u8>>)
    requires
        k@.len() == KEY_LEN,
        n@.len() == NONCE_LEN,
    ensures
        r is Some <==> chacha_open(k@, n@, a@, c@) is Some,
        r matches Some(p) ==> chacha_open(k@, n@, a@, c@) == Some(p@),
        r matches Some(p) ==> p@.len() + TAG_LEN == c@.len(),
{
    let cipher = chacha20poly1305::ChaCha20Poly1305::new(chacha20poly1305::Key::from_slice(k));
    cipher.decrypt(chacha20poly1305::Nonce::from_slice(n), Payload { msg: c, aad: a }).ok()
}

/// Relies on `Aead::encrypt` of `aes_gcm::Aes256Gcm`: it fails only for a
/// message or associated data over 2^36 bytes, appends a 16-byte tag, and
/// what it seals opens again to the message.
#[verifier::external_body]
fn aes_encrypt(k: &[u8], n: &[u8], a: &[u8], p: &[u8]) -> (r: Option<Vec<u8>>)
    requires
        k@.len() == KEY_LEN,
        n@.len() == NONCE_LEN,
    ensures
        p@.len() <= u32::MAX && a@.len() <= u32::MAX ==> r is Some,
        r matches Some(c) ==> c@ == aes_seal(k@, n@, a@, p@),
        r matches Some(c) ==> c@.len() == p@.len() + TAG_LEN,
        r matches Some(c) ==> aes_open(k@, n@, a@, c@) == Some(p@),
{
    let cipher = aes_gcm::Aes256Gcm::new(aes_gcm::Key::<aes_gcm::Aes256Gcm>::from_slice(k));
    cipher.encrypt(aes_gcm::Nonce::from_slice(n), Payload { msg: p, aad: a }).ok()
}

/// Relies on `Aead::decrypt` of `aes_gcm::Aes256Gcm`: the plaintext is 16
/// bytes shorter than its input, and nothing is returned when the tag does
/// not verify.
#[verifier::external_body]
fn aes_decrypt(k: &[u8], n: &[u8], a: &[u8], c: &[u8]) -> (r: Option<Vec<u8>>)
    requires
        k@.len() == KEY_LEN,
        n@.len() == NONCE_LEN,
    ensures
        r is Some <==> aes_open(k@, n@, a@, c@) is Some,
        r matches Some(p) ==> aes_open(k@, n@, a@, c@) == Some(p@),
        r matches Some(p) ==> p@.len() + TAG_LEN == c@.len(),
{
    let cipher = aes_gcm::Aes256Gcm::new(aes_gcm::Key::<aes_gcm::Aes256Gcm>::from_slice(k));
    cipher.decrypt(aes_gcm::Nonce::from_slice(n), Payload { msg: c, aad: a }).ok()
}

/// Seals a message and associated data of at most `u32::MAX` bytes each;
/// the result is ciphertext then tag, and opens again to the message.
pub fn seal(cipher: Cipher, key: &SecretKey, n: &[u8], a: &[u8], p: &[u8]) -> (r: Vec<u8>)
    requires
        key@.len() == KEY_LEN,
        n@.len() == NONCE_LEN,
        p@.len() <= u32::MAX,
        a@.len() <= u32::MAX,
    ensures
        r@ == seal_of(cipher, key@, n@, a@, p@),
        r@.len() == p@.len() + TAG_LEN,
        open_of(cipher, key@, n@, a@, r@) == Some(p@),
{
    let k = key.expose().as_slice();
    let sealed = match cipher {
        Cipher::ChaCha20Poly1305 => chacha_encrypt(k, n, a, p),
        Cipher::Aes256Gcm => aes_encrypt(k, n, a, p),
    };
    match sealed {
        Some(c) => c,
        None => {
            assert(false);
            Vec::new()
        },
    }
}

/// Opens sealed bytes; `None` exactly when the tag does not verify.
pub fn open(cipher: Cipher, key: &SecretKey, n: &[u8], a: &[u8], s: &[u8]) -> (r: Option<Vec<u8>>)
    requires
        key@.len() == KEY_LEN,
        n@.len() == NONCE_LEN,
    ensures
        r is Some <==> open_of(cipher, key@, n@, a@, s@) is Some,
        r matches Some(p) ==> open_of(cipher, key@, n@, a@, s@) == Some(p@),
        r matches Some(p) ==> p@.len() + TAG_LEN == s@.len(),
{
    let k = key.expose().as_slice();
    match cipher {
        Cipher::ChaCha20Poly1305 => chacha_decrypt(k, n, a, s),
        Cipher::Aes256Gcm => aes_decrypt(k, n, a, s),
    }
}

} // verus!

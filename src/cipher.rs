use vstd::prelude::*;

verus! {

/// Length in bytes of every supported key.
pub const KEY_LEN: usize = 32;
/// Length in bytes of every supported nonce.
pub const NONCE_LEN: usize = 12;
/// Length in bytes of every supported authentication tag.
pub const TAG_LEN: usize = 16;

/// The supported AEAD algorithms.
#[derive(Clone, Copy, Debug, PartialEq, Eq, Structural)]
pub enum Cipher {
    ChaCha20Poly1305,
    Aes256Gcm,
}

/// The identifier byte that names a cipher in a stream header.
pub open spec fn cipher_id(c: Cipher) -> u8 {
    match c {
        Cipher::ChaCha20Poly1305 => 1u8,
        Cipher::Aes256Gcm => 2u8,
    }
}

/// The cipher that an identifier byte names, if any.
pub open spec fn cipher_of_id(b: u8) -> Option<Cipher> {
    if b == 1 {
        Some(Cipher::ChaCha20Poly1305)
    } else if b == 2 {
        Some(Cipher::Aes256Gcm)
    } else {
        None
    }
}

/// Identifiers name ciphers one to one.
pub proof fn lemma_cipher_id_round_trip(c: Cipher)
    ensures
        cipher_of_id(cipher_id(c)) == Some(c),
{
}

impl Cipher {
    pub fn key_len(&self) -> (r: usize)
        ensures
            r == KEY_LEN,
    {
        KEY_LEN
    }

    pub fn nonce_len(&self) -> (r: usize)
        ensures
            r == NONCE_LEN,
    {
        NONCE_LEN
    }

    pub fn tag_len(&self) -> (r: usize)
        ensures
            r == TAG_LEN,
    {
        TAG_LEN
    }

    pub fn id(&self) -> (r: u8)
        ensures
            r == cipher_id(*self),
    {
        match self {
            Cipher::ChaCha20Poly1305 => 1,
            Cipher::Aes256Gcm => 2,
        }
    }

    pub fn from_id(b: u8) -> (r: Option<Cipher>)
        ensures
            r == cipher_of_id(b),
    {
        if b == 1 {
            Some(Cipher::ChaCha20Poly1305)
        } else if b == 2 {
            Some(Cipher::Aes256Gcm)
        } else {
            None
        }
    }
}

} // verus!

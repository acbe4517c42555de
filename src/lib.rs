//! Chunked, seekable authenticated encryption over an in-memory store.
//!
//! A stream is a header followed by sealed chunk records. Every record is
//! `[nonce][ciphertext][tag]`; all but the last hold a full chunk of
//! plaintext, and the last one (possibly empty) is sealed with a final
//! flag in its associated data so that a cut-off stream is detected.
pub mod aead;
pub mod cipher;
pub mod codec;
pub mod error;
pub mod key;
pub mod reader;
pub mod source;
pub mod writer;

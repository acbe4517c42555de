use vstd::prelude::*;
use secrecy::ExposeSecret;

verus! {

/// An exclusively owned secret key: it cannot be copied, and
/// `secrecy::Secret` zeroes its bytes when it is dropped. Verus cannot
/// declare `Secret` itself (its bound names an outside trait), so the key
/// keeps it in a field that only the two functions below touch.
#[verifier::external_body]
pub struct SecretKey {
    inner: secrecy::Secret<Vec<u8>>,
}

/// The bytes that a key holds.
pub uninterp spec fn key_bytes(k: SecretKey) -> Seq<u8>;

impl View for SecretKey {
    type V = Seq<u8>;

    open spec fn view(&self) -> Seq<u8> {
        key_bytes(*self)
    }
}

/// Relies on `secrecy::Secret::new`: the secret holds exactly the bytes it
/// was given.
#[verifier::external_body]
fn wrap_secret(bytes: Vec<u8>) -> (r: SecretKey)
    ensures
        key_bytes(r) == bytes@,
{
    SecretKey { inner: secrecy::Secret::new(bytes) }
}

/// Relies on `ExposeSecret::expose_secret` for `Secret`: it lends out the
/// held bytes unchanged.
#[verifier::external_body]
fn expose_bytes(k: &SecretKey) -> (r: &Vec<u8>)
    ensures
        r@ == key_bytes(*k),
{
    k.inner.expose_secret()
}

impl SecretKey {
    pub fn new(bytes: Vec<u8>) -> (r: SecretKey)
        ensures
            r@ == bytes@,
    {
        wrap_secret(bytes)
    }

    pub fn len(&self) -> (r: usize)
        ensures
            r == self@.len(),
    {
        expose_bytes(self).len()
    }

    pub(crate) fn expose(&self) -> (r: &Vec<u8>)
        ensures
            r@ == self@,
    {
        expose_bytes(self)
    }
}

} // verus!

use vstd::prelude::*;
use crate::aead::{open, open_of, seal, seal_of};
use crate::cipher::{cipher_id, cipher_of_id, Cipher, KEY_LEN, NONCE_LEN};
use crate::error::StreamError;
use crate::key::SecretKey;

verus! {

/// Header: cipher identifier, per-stream salt, plaintext chunk size.
pub const HEADER_LEN: usize = 9;
/// Bytes a sealed record adds to the plaintext it holds.
pub const OVERHEAD: usize = 28;

/// A `u32` as four bytes, most significant first.
pub open spec fn be32(x: u32) -> Seq<u8> {
    seq![((x >> 24u32) & 0xffu32) as u8, ((x >> 16u32) & 0xffu32) as u8,
        ((x >> 8u32) & 0xffu32) as u8, (x & 0xffu32) as u8]
}

/// Distinct integers have distinct encodings.
pub proof fn lemma_be32_injective(x: u32, y: u32)
    requires
        be32(x) == be32(y),
    ensures
        x == y,
{
    assert(be32(x)[0] == be32(y)[0]);
    assert(be32(x)[1] == be32(y)[1]);
    assert(be32(x)[2] == be32(y)[2]);
    assert(be32(x)[3] == be32(y)[3]);
    assert((((x >> 24u32) & 0xffu32) as u8 == ((y >> 24u32) & 0xffu32) as u8 && ((x
        >> 16u32) & 0xffu32) as u8 == ((y >> 16u32) & 0xffu32) as u8 && ((x >> 8u32)
        & 0xffu32) as u8 == ((y >> 8u32) & 0xffu32) as u8 && (x & 0xffu32) as u8 == (y
        & 0xffu32) as u8) ==> x == y) by (bit_vector);
}

/// Appends the big-endian encoding of `x`.
pub fn push_be32(v: &mut Vec<u8>, x: u32)
    ensures
        final(v)@ == old(v)@ + be32(x),
{
    v.push(((x >> 24u32) & 0xffu32) as u8);
    v.push(((x >> 16u32) & 0xffu32) as u8);
    v.push(((x >> 8u32) & 0xffu32) as u8);
    v.push((x & 0xffu32) as u8);
    assert(final(v)@ =~= old(v)@ + be32(x));
}

/// Reads four bytes at `at` as a big-endian `u32`.
pub fn read_be32(s: &[u8], at: usize) -> (r: u32)
    requires
        at + 4 <= s@.len(),
    ensures
        be32(r) == s@.subrange(at as int, at + 4),
{
    let b0 = s[at];
    let b1 = s[at + 1];
    let b2 = s[at + 2];
    let b3 = s[at + 3];
    let r: u32 = ((b0 as u32) << 24u32) | ((b1 as u32) << 16u32) | ((b2 as u32) << 8u32)
        | (b3 as u32);
    assert(((r >> 24u32) & 0xffu32) as u8 == b0 && ((r >> 16u32) & 0xffu32) as u8 == b1
        && ((r >> 8u32) & 0xffu32) as u8 == b2 && (r & 0xffu32) as u8 == b3) by (bit_vector)
        requires
            r == ((b0 as u32) << 24u32) | ((b1 as u32) << 16u32) | ((b2 as u32) << 8u32)
                | (b3 as u32),
    ;
    assert(be32(r) =~= s@.subrange(at as int, at + 4));
    r
}

/// The nonce of a chunk: the stream's salt, the chunk's index and the
/// chunk's version (how often it was re-sealed), each as four bytes. A
/// partial overwrite re-seals a chunk with its version raised by one, so a
/// nonce is never used twice for different plaintexts of one stream.
pub open spec fn nonce_for(salt: u32, index: u32, version: u32) -> Seq<u8> {
    be32(salt) + be32(index) + be32(version)
}

/// Nonces of chunks differ whenever salt, index or version differ: chunks
/// of one stream never share a nonce, nor do chunks of streams whose salts
/// differ.
pub proof fn lemma_nonce_unique(s1: u32, i1: u32, v1: u32, s2: u32, i2: u32, v2: u32)
    requires
        s1 != s2 || i1 != i2 || v1 != v2,
    ensures
        nonce_for(s1, i1, v1) != nonce_for(s2, i2, v2),
{
    if nonce_for(s1, i1, v1) == nonce_for(s2, i2, v2) {
        let a = nonce_for(s1, i1, v1);
        let b = nonce_for(s2, i2, v2);
        assert(a.subrange(0, 4) =~= be32(s1));
        assert(b.subrange(0, 4) =~= be32(s2));
        assert(a.subrange(4, 8) =~= be32(i1));
        assert(b.subrange(4, 8) =~= be32(i2));
        assert(a.subrange(8, 12) =~= be32(v1));
        assert(b.subrange(8, 12) =~= be32(v2));
        lemma_be32_injective(s1, s2);
        lemma_be32_injective(i1, i2);
        lemma_be32_injective(v1, v2);
    }
}

/// Associated data of a chunk: its index, and whether it ends the stream.
pub open spec fn aad_for(index: u32, last: bool) -> Seq<u8> {
    be32(index) + seq![if last { 1u8 } else { 0u8 }]
}

/// The plaintext that a sealed record at `index` opens to, if its tag
/// verifies.
pub open spec fn record_plain(cipher: Cipher, key: Seq<u8>, index: u32, last: bool, rec: Seq<u8>) -> Option<Seq<u8>> {
    if rec.len() < OVERHEAD {
        None
    } else {
        open_of(cipher, key, rec.subrange(0, 12), aad_for(index, last), rec.subrange(12, rec.len() as int))
    }
}

/// The version field of a record's nonce.
pub open spec fn record_version(rec: Seq<u8>) -> Seq<u8> {
    rec.subrange(8, 12)
}

pub fn make_nonce(salt: u32, index: u32, version: u32) -> (r: Vec<u8>)
    ensures
        r@ == nonce_for(salt, index, version),
{
    let mut v: Vec<u8> = Vec::new();
    push_be32(&mut v, salt);
    push_be32(&mut v, index);
    push_be32(&mut v, version);
    assert(v@ =~= nonce_for(salt, index, version));
    v
}

pub fn make_aad(index: u32, last: bool) -> (r: Vec<u8>)
    ensures
        r@ == aad_for(index, last),
{
    let mut v: Vec<u8> = Vec::new();
    push_be32(&mut v, index);
    v.push(if last { 1u8 } else { 0u8 });
    assert(v@ =~= aad_for(index, last));
    v
}

/// Seals one chunk into its record `[nonce][ciphertext][tag]`.
pub fn seal_chunk(cipher: Cipher, key: &SecretKey, salt: u32, index: u32, version: u32, last: bool, plain: &[u8]) -> (r: Vec<u8>)
    requires
        key@.len() == KEY_LEN,
        plain@.len() <= u32::MAX,
    ensures
        r@.len() == plain@.len() + OVERHEAD,
        r@.subrange(0, 12) == nonce_for(salt, index, version),
        r@.subrange(12, r@.len() as int) == seal_of(cipher, key@, nonce_for(salt, index, version), aad_for(index, last), plain@),
        record_plain(cipher, key@, index, last, r@) == Some(plain@),
{
    let nonce = make_nonce(salt, index, version);
    let aad = make_aad(index, last);
    let sealed = seal(cipher, key, nonce.as_slice(), aad.as_slice(), plain);
    let mut rec = nonce;
    let mut i: usize = 0;
    while i < sealed.len()
        invariant
            i <= sealed@.len(),
            rec@ == nonce_for(salt, index, version) + sealed@.subrange(0, i as int),
        decreases sealed@.len() - i,
    {
        rec.push(sealed[i]);
        assert(sealed@.subrange(0, i + 1) =~= sealed@.subrange(0, i as int).push(sealed@[i as int]));
        i = i + 1;
    }
    assert(sealed@.subrange(0, i as int) =~= sealed@);
    assert(rec@.subrange(0, 12) =~= nonce_for(salt, index, version));
    assert(rec@.subrange(12, rec@.len() as int) =~= sealed@);
    rec
}

/// Opens one record: `TruncatedStream` when it is shorter than a record
/// can be, `Integrity` when its tag does not verify, else its plaintext.
pub fn open_chunk(cipher: Cipher, key: &SecretKey, index: u32, last: bool, rec: &[u8]) -> (r: Result<Vec<u8>, StreamError>)
    requires
        key@.len() == KEY_LEN,
    ensures
        rec@.len() < OVERHEAD ==> r == Err::<Vec<u8>, StreamError>(StreamError::TruncatedStream),
        rec@.len() >= OVERHEAD ==> match record_plain(cipher, key@, index, last, rec@) {
            Some(p) => r matches Ok(q) && q@ == p,
            None => r == Err::<Vec<u8>, StreamError>(StreamError::Integrity),
        },
        r matches Ok(q) ==> q@.len() + OVERHEAD == rec@.len(),
{
    if rec.len() < OVERHEAD {
        return Err(StreamError::TruncatedStream);
    }
    let nonce = slice_to_vec(rec, 0, NONCE_LEN);
    let body = slice_to_vec(rec, NONCE_LEN, rec.len());
    let aad = make_aad(index, last);
    match open(cipher, key, nonce.as_slice(), aad.as_slice(), body.as_slice()) {
        Some(p) => Ok(p),
        None => Err(StreamError::Integrity),
    }
}

/// Copies `s[from..to]`.
pub fn slice_to_vec(s: &[u8], from: usize, to: usize) -> (r: Vec<u8>)
    requires
        from <= to <= s@.len(),
    ensures
        r@ == s@.subrange(from as int, to as int),
{
    let mut v: Vec<u8> = Vec::new();
    let mut i: usize = from;
    while i < to
        invariant
            from <= i <= to <= s@.len(),
            v@ == s@.subrange(from as int, i as int),
        decreases to - i,
    {
        v.push(s[i]);
        assert(s@.subrange(from as int, i + 1) =~= s@.subrange(from as int, i as int).push(s@[i as int]));
        i = i + 1;
    }
    v
}

/// `x` split into a whole number of `d`s and a remainder.
pub proof fn lemma_div_mod(x: int, d: int)
    requires
        x >= 0,
        d > 0,
    ensures
        x == (x / d) * d + x % d,
        0 <= x % d < d,
        x / d >= 0,
{
    vstd::arithmetic::div_mod::lemma_fundamental_div_mod(x, d);
    assert((x / d) * d == d * (x / d)) by (nonlinear_arith);
    assert(0 <= x % d < d) by (nonlinear_arith)
        requires
            d > 0,
    ;
    assert(x / d >= 0) by (nonlinear_arith)
        requires
            d > 0,
            x >= 0,
    ;
}

/// Chunks of lower index lie wholly before those of higher index.
pub proof fn lemma_chunk_order(i: int, j: int, cs: int)
    requires
        0 <= i < j,
        cs > 0,
    ensures
        i * cs + cs <= j * cs,
        (i + 1) * cs == i * cs + cs,
{
    assert(i * cs + cs <= j * cs) by (nonlinear_arith)
        requires
            0 <= i < j,
            cs > 0,
    ;
    assert((i + 1) * cs == i * cs + cs) by (nonlinear_arith);
}

/// The header of a stream: cipher identifier, salt, plaintext chunk size.
pub open spec fn header_bytes(cipher: Cipher, salt: u32, chunk_size: u32) -> Seq<u8> {
    seq![cipher_id(cipher)] + be32(salt) + be32(chunk_size)
}

/// Bytes a sealed full chunk takes in the store.
pub open spec fn record_len(cs: int) -> int {
    cs + OVERHEAD
}

/// Where the record of chunk `i` starts in the store.
pub open spec fn record_start(cs: int, i: int) -> int {
    HEADER_LEN + i * record_len(cs)
}

/// Where the record of chunk `i` starts in the store.
pub fn record_offset(chunk_size: u32, i: u64) -> (r: u64)
    requires
        record_start(chunk_size as int, i as int) <= u64::MAX,
    ensures
        r == record_start(chunk_size as int, i as int),
{
    let phys = chunk_size as u64 + OVERHEAD as u64;
    proof {
        assert(i * phys == i * (chunk_size + OVERHEAD));
    }
    HEADER_LEN as u64 + i * phys
}

/// Records lie one after another, in index order.
pub proof fn lemma_record_order(j: int, i: int, cs: int)
    requires
        0 <= j < i,
        cs > 0,
    ensures
        HEADER_LEN <= record_start(cs, j),
        record_start(cs, j + 1) == record_start(cs, j) + cs + OVERHEAD,
        record_start(cs, j + 1) <= record_start(cs, i),
{
    let r = cs + OVERHEAD;
    assert(j * r >= 0) by (nonlinear_arith)
        requires
            j >= 0,
            r > 0,
    ;
    assert((j + 1) * r == j * r + r) by (nonlinear_arith);
    assert((j + 1) * r <= i * r) by (nonlinear_arith)
        requires
            j + 1 <= i,
            r > 0,
    ;
}

/// The record of full chunk `i` in the store.
pub open spec fn stream_record(b: Seq<u8>, cs: int, i: int) -> Seq<u8> {
    b.subrange(record_start(cs, i), record_start(cs, i + 1))
}

/// Plaintext chunk `i` of a stream's content.
pub open spec fn chunk_of(c: Seq<u8>, cs: int, i: int) -> Seq<u8> {
    c.subrange(i * cs, (i + 1) * cs)
}

/// The store `b` holds the plaintext `c`: a header under `cipher` with
/// chunk size `cs`, a record for each full chunk of `c` sealed as not
/// last, and a final record, sealed as last, for what remains of `c`
/// (possibly nothing).
pub open spec fn stream_holds(cipher: Cipher, key: Seq<u8>, cs: u32, b: Seq<u8>, c: Seq<u8>) -> bool {
    let n: int = c.len() as int / (cs as int);
    &&& cs > 0
    &&& b.len() >= HEADER_LEN
    &&& b[0] == cipher_id(cipher)
    &&& b.subrange(5, 9) == be32(cs)
    &&& n < u32::MAX
    &&& b.len() == record_start(cs as int, n) + OVERHEAD + (c.len() as int) % (cs as int)
    &&& forall|i: int| 0 <= i < n ==> record_plain(cipher, key, i as u32, false, #[trigger] stream_record(b, cs as int, i)) == Some(chunk_of(c, cs as int, i))
    &&& record_plain(cipher, key, n as u32, true, b.subrange(record_start(cs as int, n), b.len() as int)) == Some(c.subrange(n * (cs as int), c.len() as int))
}

/// The fields of a stream header.
#[derive(Clone, Copy, Debug, PartialEq, Eq, Structural)]
pub struct Header {
    pub cipher: Cipher,
    pub salt: u32,
    pub chunk_size: u32,
}

pub fn encode_header(h: Header) -> (r: Vec<u8>)
    ensures
        r@ == header_bytes(h.cipher, h.salt, h.chunk_size),
{
    let mut v: Vec<u8> = Vec::new();
    v.push(h.cipher.id());
    push_be32(&mut v, h.salt);
    push_be32(&mut v, h.chunk_size);
    assert(v@ =~= header_bytes(h.cipher, h.salt, h.chunk_size));
    v
}

/// Reads a stream header from the front of `b`: `TruncatedStream` when `b`
/// is too short, `Configuration` for an unknown cipher or a zero chunk size.
pub fn decode_header(b: &[u8]) -> (r: Result<Header, StreamError>)
    ensures
        b@.len() < HEADER_LEN ==> r == Err::<Header, StreamError>(StreamError::TruncatedStream),
        b@.len() >= HEADER_LEN ==> (r is Ok <==> (cipher_of_id(b@[0]) is Some && b@.subrange(5, 9) != be32(0))),
        b@.len() >= HEADER_LEN && !(r is Ok) ==> r == Err::<Header, StreamError>(StreamError::Configuration),
        r matches Ok(h) ==> b@.subrange(0, HEADER_LEN as int) == header_bytes(h.cipher, h.salt, h.chunk_size) && h.chunk_size > 0,
{
    if b.len() < HEADER_LEN {
        return Err(StreamError::TruncatedStream);
    }
    let cipher = match Cipher::from_id(b[0]) {
        Some(c) => c,
        None => return Err(StreamError::Configuration),
    };
    let salt = read_be32(b, 1);
    let chunk_size = read_be32(b, 5);
    if chunk_size == 0 {
        return Err(StreamError::Configuration);
    }
    proof {
        if b@.subrange(5, 9) == be32(0) {
            lemma_be32_injective(chunk_size, 0);
        }
        assert(b@.subrange(0, HEADER_LEN as int) =~= header_bytes(cipher, salt, chunk_size));
    }
    Ok(Header { cipher, salt, chunk_size })
}

/// A header reads back as the fields it was written from.
pub proof fn lemma_header_round_trip(h: Header, b: Seq<u8>, g: Header)
    requires
        b == header_bytes(h.cipher, h.salt, h.chunk_size),
        b == header_bytes(g.cipher, g.salt, g.chunk_size),
    ensures
        g == h,
{
    assert(b[0] == cipher_id(h.cipher));
    assert(cipher_of_id(cipher_id(h.cipher)) == Some(h.cipher));
    assert(cipher_of_id(cipher_id(g.cipher)) == Some(g.cipher));
    assert(b.subrange(1, 5) =~= be32(h.salt));
    assert(b.subrange(1, 5) =~= be32(g.salt));
    assert(b.subrange(5, 9) =~= be32(h.chunk_size));
    assert(b.subrange(5, 9) =~= be32(g.chunk_size));
    lemma_be32_injective(h.salt, g.salt);
    lemma_be32_injective(h.chunk_size, g.chunk_size);
}

/// Appends `s[from..to]` to `v`.
pub fn append_range(v: &mut Vec<u8>, s: &[u8], from: usize, to: usize)
    requires
        from <= to <= s@.len(),
    ensures
        final(v)@ == old(v)@ + s@.subrange(from as int, to as int),
{
    let mut i: usize = from;
    while i < to
        invariant
            from <= i <= to <= s@.len(),
            v@ == old(v)@ + s@.subrange(from as int, i as int),
        decreases to - i,
    {
        v.push(s[i]);
        assert(s@.subrange(from as int, i + 1) =~= s@.subrange(from as int, i as int).push(s@[i as int]));
        i = i + 1;
    }
}

} // verus!

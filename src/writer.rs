use vstd::prelude::*;
use crate::aead::seal_of;
use crate::cipher::{Cipher, KEY_LEN};
use crate::codec::{
    append_range, chunk_of, lemma_record_order, encode_header, lemma_chunk_order, lemma_div_mod, open_chunk,
    read_be32, record_plain, record_version, seal_chunk, stream_holds, stream_record, be32,
    record_start, header_bytes, nonce_for, aad_for, Header, HEADER_LEN, OVERHEAD,
};
use crate::error::StreamError;
use crate::key::SecretKey;

verus! {

/// `c` with `d` written over it from `pos` on, growing it where `d` runs
/// past its end.
pub open spec fn splice(c: Seq<u8>, pos: int, d: Seq<u8>) -> Seq<u8> {
    if pos + d.len() < c.len() {
        c.subrange(0, pos) + d + c.subrange(pos + d.len(), c.len() as int)
    } else {
        c.subrange(0, pos) + d
    }
}

/// How many bytes one `write` of `n` bytes at `pos` takes: up to the end
/// of the chunk that `pos` lies in.
pub open spec fn write_len(pos: int, cs: int, n: int) -> int {
    if n < cs - pos % cs {
        n
    } else {
        cs - pos % cs
    }
}

/// `c` with chunk `j` replaced by `p`, as when that chunk is reloaded from
/// the backing sink.
pub open spec fn with_chunk(c: Seq<u8>, cs: int, j: int, p: Seq<u8>) -> Seq<u8> {
    c.subrange(0, j * cs) + p + c.subrange((j + 1) * cs, c.len() as int)
}

/// Where each byte of a reloaded content comes from.
pub proof fn lemma_with_chunk_index(c: Seq<u8>, cs: int, j: int, p: Seq<u8>)
    requires
        cs > 0,
        j >= 0,
        p.len() == cs,
        (j + 1) * cs <= c.len(),
    ensures
        with_chunk(c, cs, j, p).len() == c.len(),
        forall|x: int| 0 <= x < j * cs ==> #[trigger] with_chunk(c, cs, j, p)[x] == c[x],
        forall|x: int| j * cs <= x < j * cs + cs ==> #[trigger] with_chunk(c, cs, j, p)[x] == p[x - j * cs],
        forall|x: int| j * cs + cs <= x < c.len() ==> #[trigger] with_chunk(c, cs, j, p)[x] == c[x],
{
    assert((j + 1) * cs == j * cs + cs) by (nonlinear_arith);
    assert(j * cs >= 0) by (nonlinear_arith)
        requires
            j >= 0,
            cs > 0,
    ;
}

/// Where each byte of a splice comes from.
pub proof fn lemma_splice_index(c: Seq<u8>, pos: int, d: Seq<u8>)
    requires
        0 <= pos <= c.len(),
    ensures
        splice(c, pos, d).len() == if pos + d.len() < c.len() { c.len() as int } else { pos + d.len() },
        forall|x: int| 0 <= x < pos ==> #[trigger] splice(c, pos, d)[x] == c[x],
        forall|x: int| pos <= x < pos + d.len() ==> #[trigger] splice(c, pos, d)[x] == d[x - pos],
        forall|x: int| pos + d.len() <= x < c.len() ==> #[trigger] splice(c, pos, d)[x] == c[x],
{
}

/// A random salt for a new stream.
/// Relies on `rand::random`, which draws from the thread-local generator.
#[verifier::external_body]
fn fresh_salt() -> (r: u32) {
    rand::random::<u32>()
}

/// Seals plaintext written at any position into chunk records.
///
/// Full chunks are sealed as soon as they fill; the trailing partial chunk
/// stays in memory until `finish`. Writing into a sealed chunk opens it,
/// changes it and seals it again under the next version of its nonce.
pub struct Writer {
    cipher: Cipher,
    key: SecretKey,
    salt: u32,
    chunk_size: u32,
    records: Vec<Vec<u8>>,
    tail: Vec<u8>,
    pos: u64,
    content: Ghost<Seq<u8>>,
}

impl Writer {
    /// The plaintext written so far.
    pub closed spec fn content(&self) -> Seq<u8> {
        self.content@
    }

    pub closed spec fn spec_pos(&self) -> int {
        self.pos as int
    }

    pub closed spec fn spec_cipher(&self) -> Cipher {
        self.cipher
    }

    pub closed spec fn spec_key(&self) -> Seq<u8> {
        self.key@
    }

    pub closed spec fn spec_chunk_size(&self) -> int {
        self.chunk_size as int
    }

    pub closed spec fn spec_salt(&self) -> u32 {
        self.salt
    }

    /// How many full chunks are sealed.
    pub closed spec fn sealed_chunks(&self) -> int {
        self.records@.len() as int
    }

    /// The version field of the nonce of sealed chunk `i`.
    pub closed spec fn chunk_version(&self, i: int) -> Seq<u8> {
        record_version(self.records@[i]@)
    }

    /// What a write of `n` bytes at the cursor starts from, given the record
    /// `stored` that the backing sink holds for the cursor's chunk: within
    /// the sealed chunks, that chunk is reloaded from the record's
    /// plaintext; elsewhere the content as it is.
    pub open spec fn write_base(&self, n: int, stored: Seq<u8>) -> Seq<u8> {
        let cs = self.spec_chunk_size();
        let j = self.spec_pos() / cs;
        if n > 0 && self.spec_pos() < self.sealed_chunks() * cs {
            with_chunk(self.content(), cs, j, record_plain(self.spec_cipher(), self.spec_key(), j as u32, false, stored)->Some_0)
        } else {
            self.content()
        }
    }

    /// The record of sealed chunk `i`.
    pub closed spec fn record_of(&self, i: int) -> Seq<u8> {
        self.records@[i]@
    }

    /// The nonce that sealed chunk `i` is stored under.
    pub closed spec fn chunk_nonce(&self, i: int) -> Seq<u8> {
        self.records@[i]@.subrange(0, 12)
    }

    /// Within one stream, sealed chunks never share a nonce.
    pub proof fn lemma_chunk_nonces_distinct(&self, i: int, j: int)
        requires
            self.wf(),
            0 <= i < self.sealed_chunks(),
            0 <= j < self.sealed_chunks(),
            i != j,
        ensures
            self.chunk_nonce(i) != self.chunk_nonce(j),
    {
        let a = self.records@[i]@;
        let b = self.records@[j]@;
        if self.chunk_nonce(i) == self.chunk_nonce(j) {
            assert(a.subrange(0, 8).subrange(4, 8) =~= self.chunk_nonce(i).subrange(4, 8));
            assert(b.subrange(0, 8).subrange(4, 8) =~= self.chunk_nonce(j).subrange(4, 8));
            assert((be32(self.salt) + be32(i as u32)).subrange(4, 8) =~= be32(i as u32));
            assert((be32(self.salt) + be32(j as u32)).subrange(4, 8) =~= be32(j as u32));
            crate::codec::lemma_be32_injective(i as u32, j as u32);
        }
    }

    /// The nonce of a sealed chunk is the stream's salt, the chunk's index
    /// and the chunk's current version.
    pub proof fn lemma_chunk_nonce(&self, i: int)
        requires
            self.wf(),
            0 <= i < self.sealed_chunks(),
        ensures
            self.chunk_nonce(i) == be32(self.spec_salt()) + be32(i as u32) + self.chunk_version(i),
            forall|v: u32| self.chunk_version(i) == #[trigger] be32(v) ==> self.chunk_nonce(i) == nonce_for(self.spec_salt(), i as u32, v),
    {
        let rec = self.records@[i]@;
        assert(rec.subrange(0, 12) =~= rec.subrange(0, 8) + rec.subrange(8, 12));
    }

    /// The sealed chunks are exactly the full chunks of the content, and
    /// the cursor lies within the content.
    pub proof fn lemma_sealed_count(&self)
        requires
            self.wf(),
        ensures
            self.sealed_chunks() == self.content().len() as int / self.spec_chunk_size(),
            self.content().len() < (self.sealed_chunks() + 1) * self.spec_chunk_size(),
            0 <= self.spec_pos() <= self.content().len(),
    {
        let cs = self.chunk_size as int;
        let n = self.records@.len() as int;
        vstd::arithmetic::div_mod::lemma_fundamental_div_mod_converse(self.content@.len() as int, cs, n, self.tail@.len() as int);
        assert((n + 1) * cs == n * cs + cs) by (nonlinear_arith);
    }

    pub closed spec fn wf(&self) -> bool {
        let cs = self.chunk_size as int;
        let n = self.records@.len() as int;
        &&& self.key@.len() == KEY_LEN
        &&& cs > 0
        &&& n + 1 < u32::MAX
        &&& self.content@.len() == n * cs + self.tail@.len()
        &&& self.tail@.len() < cs
        &&& self.tail@ == self.content@.subrange(n * cs, self.content@.len() as int)
        &&& self.pos <= self.content@.len()
        &&& forall|i: int| 0 <= i < n ==> (#[trigger] self.records@[i])@.len() == cs + OVERHEAD
        &&& forall|i: int| 0 <= i < n ==> (#[trigger] self.records@[i])@.subrange(0, 8) == be32(self.salt) + be32(i as u32)
        &&& forall|i: int| 0 <= i < n ==> (#[trigger] self.records@[i])@.subrange(12, cs + OVERHEAD)
            == seal_of(self.cipher, self.key@, self.records@[i]@.subrange(0, 12), aad_for(i as u32, false), chunk_of(self.content@, cs, i))
        &&& forall|i: int| 0 <= i < n ==> record_plain(self.cipher, self.key@, i as u32, false, (#[trigger] self.records@[i])@) == Some(chunk_of(self.content@, cs, i))
    }

    /// A writer for a new, empty stream with the given salt. Under one key
    /// every stream must get its own salt: two streams sharing salt and key
    /// share nonces.
    /// `Configuration` when the key has the wrong length or the chunk size
    /// is zero.
    pub fn new(cipher: Cipher, key: SecretKey, chunk_size: u32, salt: u32) -> (r: Result<Writer, StreamError>)
        ensures
            (key@.len() == KEY_LEN && chunk_size > 0) <==> r is Ok,
            !(r is Ok) ==> r == Err::<Writer, StreamError>(StreamError::Configuration),
            r matches Ok(w) ==> (w.wf() && w.content() == Seq::<u8>::empty() && w.spec_pos() == 0
                && w.spec_cipher() == cipher && w.spec_key() == key@ && w.spec_chunk_size() == chunk_size
                && w.spec_salt() == salt),
    {
        if key.len() != KEY_LEN || chunk_size == 0 {
            return Err(StreamError::Configuration);
        }
        let w = Writer {
            cipher,
            key,
            salt,
            chunk_size,
            records: Vec::new(),
            tail: Vec::new(),
            pos: 0,
            content: Ghost(Seq::empty()),
        };
        assert(w.tail@ =~= w.content@.subrange(0, 0));
        Ok(w)
    }

    /// A writer for a new stream under a freshly drawn random 32-bit salt.
    /// Salts drawn this way are likely to repeat once a key carries about
    /// 2^16 streams, so a key should carry far fewer streams than that.
    pub fn create(cipher: Cipher, key: SecretKey, chunk_size: u32) -> (r: Result<Writer, StreamError>)
        ensures
            (key@.len() == KEY_LEN && chunk_size > 0) <==> r is Ok,
            !(r is Ok) ==> r == Err::<Writer, StreamError>(StreamError::Configuration),
            r matches Ok(w) ==> (w.wf() && w.content() == Seq::<u8>::empty() && w.spec_pos() == 0
                && w.spec_cipher() == cipher && w.spec_key() == key@ && w.spec_chunk_size() == chunk_size),
    {
        let salt = fresh_salt();
        Writer::new(cipher, key, chunk_size, salt)
    }

    pub fn position(&self) -> (r: u64)
        ensures
            r == self.spec_pos(),
    {
        self.pos
    }

    /// Moves the cursor; `Bounds`, with nothing changed, past the end of
    /// what was written.
    pub fn seek(&mut self, to: u64) -> (r: Result<u64, StreamError>)
        requires
            old(self).wf(),
        ensures
            final(self).wf(),
            final(self).content() == old(self).content(),
            final(self).spec_cipher() == old(self).spec_cipher(),
            final(self).spec_key() == old(self).spec_key(),
            final(self).spec_chunk_size() == old(self).spec_chunk_size(),
            final(self).spec_salt() == old(self).spec_salt(),
            final(self).sealed_chunks() == old(self).sealed_chunks(),
            forall|i: int| 0 <= i < old(self).sealed_chunks() ==> final(self).chunk_version(i) == old(self).chunk_version(i),
            to <= old(self).content().len() ==> r == Ok::<u64, StreamError>(to) && final(self).spec_pos() == to,
            to > old(self).content().len() ==> r == Err::<u64, StreamError>(StreamError::Bounds) && final(self).spec_pos() == old(self).spec_pos(),
    {
        let len = self.len();
        if to > len {
            return Err(StreamError::Bounds);
        }
        self.pos = to;
        Ok(to)
    }

    /// Writes into sealed chunk `pos / cs`: opens it, overwrites it from
    /// `pos % cs` and seals it under the next version.
    #[verifier::rlimit(50)]
    fn write_sealed(&mut self, data: &[u8], stored: &[u8]) -> (r: Result<usize, StreamError>)
        requires
            old(self).wf(),
            data@.len() > 0,
            old(self).pos < old(self).records@.len() * (old(self).chunk_size as int),
        ensures
            final(self).wf(),
            final(self).spec_cipher() == old(self).spec_cipher(),
            final(self).spec_key() == old(self).spec_key(),
            final(self).spec_chunk_size() == old(self).spec_chunk_size(),
            final(self).spec_salt() == old(self).spec_salt(),
            final(self).sealed_chunks() == old(self).sealed_chunks(),
            match r {
                Ok(k) => k == write_len(old(self).pos as int, old(self).chunk_size as int, data@.len() as int)
                    && final(self).content() == splice(old(self).write_base(data@.len() as int, stored@), old(self).pos as int, data@.subrange(0, k as int))
                    && final(self).pos == old(self).pos + k,
                Err(e) => final(self).content() == old(self).content() && final(self).pos == old(self).pos,
            },
            r == Err::<usize, StreamError>(StreamError::NonceExhausted) <==> old(self).chunk_version(old(self).pos as int / (old(self).chunk_size as int)) == be32(u32::MAX),
            r == Err::<usize, StreamError>(StreamError::TruncatedStream) <==> (old(self).chunk_version(old(self).pos as int / (old(self).chunk_size as int)) != be32(u32::MAX)
                && stored@.len() != old(self).chunk_size + OVERHEAD),
            r == Err::<usize, StreamError>(StreamError::Integrity) <==> (old(self).chunk_version(old(self).pos as int / (old(self).chunk_size as int)) != be32(u32::MAX)
                && stored@.len() == old(self).chunk_size + OVERHEAD
                && record_plain(old(self).cipher, old(self).key@, (old(self).pos as int / (old(self).chunk_size as int)) as u32, false, stored@) is None),
            r matches Err(e) ==> (e == StreamError::NonceExhausted || e == StreamError::TruncatedStream || e == StreamError::Integrity),
            forall|i: int| 0 <= i < old(self).sealed_chunks() && (r is Err || i != old(self).pos as int / (old(self).chunk_size as int))
                ==> final(self).chunk_version(i) == old(self).chunk_version(i),
            r is Ok ==> forall|v: u32| old(self).chunk_version(old(self).pos as int / (old(self).chunk_size as int)) == #[trigger] be32(v)
                ==> final(self).chunk_version(old(self).pos as int / (old(self).chunk_size as int)) == be32((v + 1) as u32),
    {
        let cs = self.chunk_size as u64;
        let j = self.pos / cs;
        let off = self.pos % cs;
        let ghost n = self.records@.len() as int;
        let ghost c = self.content@;
        proof {
            lemma_div_mod(self.pos as int, cs as int);
            if j >= n {
                assert(j * cs >= n * cs) by (nonlinear_arith)
                    requires
                        j >= n,
                        cs > 0,
                ;
            }
            assert(j + 1 <= n);
            assert((j + 1) * cs <= n * cs) by (nonlinear_arith)
                requires
                    j + 1 <= n,
                    cs > 0,
            ;
            lemma_chunk_order(j as int, j + 1, cs as int);
        }
        let room = cs - off;
        let k: usize = if (data.len() as u64) < room {
            data.len()
        } else {
            room as usize
        };
        let version = read_be32(self.records[j as usize].as_slice(), 8);
        if version == u32::MAX {
            return Err(StreamError::NonceExhausted);
        }
        proof {
            if self.records@[j as int]@.subrange(8, 12) == be32(u32::MAX) {
                crate::codec::lemma_be32_injective(version, u32::MAX);
            }
        }
        if stored.len() as u64 != cs + OVERHEAD as u64 {
            return Err(StreamError::TruncatedStream);
        }
        let plain = match open_chunk(self.cipher, &self.key, j as u32, false, stored) {
            Ok(p) => p,
            Err(e) => {
                return Err(e);
            },
        };
        let ghost c0 = c;
        let ghost c = with_chunk(c0, cs as int, j as int, plain@);
        proof {
            lemma_with_chunk_index(c0, cs as int, j as int, plain@);
            assert(c.len() == c0.len());
            assert(plain@ =~= chunk_of(c, cs as int, j as int));
            assert forall|i: int| 0 <= i < n && i != j implies chunk_of(c, cs as int, i) == chunk_of(c0, cs as int, i) by {
                if i < j {
                    lemma_chunk_order(i, j as int, cs as int);
                } else {
                    lemma_chunk_order(j as int, i, cs as int);
                }
                assert((i + 1) * cs <= n * cs) by (nonlinear_arith)
                    requires
                        i + 1 <= n,
                        cs > 0,
                ;
                assert((i + 1) * cs == i * cs + cs) by (nonlinear_arith);
                assert(chunk_of(c, cs as int, i) =~= chunk_of(c0, cs as int, i));
            }
            assert(c.subrange(n * cs, c.len() as int) =~= c0.subrange(n * cs, c0.len() as int));
        }
        let mut fresh: Vec<u8> = Vec::new();
        append_range(&mut fresh, plain.as_slice(), 0, off as usize);
        append_range(&mut fresh, data, 0, k);
        append_range(&mut fresh, plain.as_slice(), off as usize + k, cs as usize);
        let rec = seal_chunk(self.cipher, &self.key, self.salt, j as u32, version + 1, false, fresh.as_slice());
        let ghost d = data@.subrange(0, k as int);
        let ghost c2 = splice(c, self.pos as int, d);
        proof {
            lemma_splice_index(c, self.pos as int, d);
            assert(self.pos + k <= (j + 1) * cs);
            assert(c2.len() == c.len());
            assert(fresh@ =~= chunk_of(c2, cs as int, j as int));
            assert forall|i: int| 0 <= i < n && i != j implies chunk_of(c2, cs as int, i) == chunk_of(c, cs as int, i) by {
                if i < j {
                    lemma_chunk_order(i, j as int, cs as int);
                } else {
                    lemma_chunk_order(j as int, i, cs as int);
                }
                assert((i + 1) * cs <= n * cs) by (nonlinear_arith)
                    requires
                        i + 1 <= n,
                        cs > 0,
                ;
                assert((i + 1) * cs == i * cs + cs) by (nonlinear_arith);
                assert(i * cs + cs <= self.pos || i * cs >= self.pos + k);
                assert(chunk_of(c2, cs as int, i) =~= chunk_of(c, cs as int, i));
            }
            assert(self.tail@ =~= c2.subrange(n * cs, c2.len() as int));
            assert(n * cs <= (u32::MAX as int) * (u32::MAX as int)) by (nonlinear_arith)
                requires
                    n < u32::MAX,
                    cs <= u32::MAX,
            ;
        }
        proof {
            assert(rec@.subrange(8, 12) =~= rec@.subrange(0, 12).subrange(8, 12));
            assert(crate::codec::nonce_for(self.salt, j as u32, (version + 1) as u32).subrange(8, 12) =~= be32((version + 1) as u32));
            assert forall|v: u32| old(self).chunk_version(j as int) == #[trigger] be32(v) implies v == version by {
                crate::codec::lemma_be32_injective(v, version);
            }
        }
        proof {
            assert(rec@.subrange(0, 8) =~= crate::codec::nonce_for(self.salt, j as u32, (version + 1) as u32).subrange(0, 8));
            assert(crate::codec::nonce_for(self.salt, j as u32, (version + 1) as u32).subrange(0, 8) =~= be32(self.salt) + be32(j as u32));
        }
        self.records.set(j as usize, rec);
        self.content = Ghost(c2);
        self.pos = self.pos + k as u64;
        proof {
            assert forall|i: int| 0 <= i < n implies record_plain(self.cipher, self.key@, i as u32, false, (#[trigger] self.records@[i])@) == Some(chunk_of(self.content@, cs as int, i)) by {
                if i != j {
                    assert(chunk_of(c2, cs as int, i) == chunk_of(c, cs as int, i));
                    assert(chunk_of(c, cs as int, i) == chunk_of(c0, cs as int, i));
                }
            }
        }
        Ok(k)
    }

    /// Writes into the trailing partial chunk, sealing it when it fills.
    fn write_tail(&mut self, data: &[u8]) -> (r: Result<usize, StreamError>)
        requires
            old(self).wf(),
            data@.len() > 0,
            old(self).pos >= old(self).records@.len() * (old(self).chunk_size as int),
        ensures
            final(self).wf(),
            final(self).spec_cipher() == old(self).spec_cipher(),
            final(self).spec_key() == old(self).spec_key(),
            final(self).spec_chunk_size() == old(self).spec_chunk_size(),
            final(self).spec_salt() == old(self).spec_salt(),
            forall|i: int| 0 <= i < old(self).sealed_chunks() ==> final(self).chunk_version(i) == old(self).chunk_version(i),
            match r {
                Ok(k) => k == write_len(old(self).pos as int, old(self).chunk_size as int, data@.len() as int)
                    && final(self).content() == splice(old(self).content(), old(self).pos as int, data@.subrange(0, k as int))
                    && final(self).pos == old(self).pos + k,
                Err(e) => e == StreamError::Bounds && final(self).content() == old(self).content() && final(self).pos == old(self).pos,
            },
            final(self).sealed_chunks() == old(self).sealed_chunks() || (final(self).sealed_chunks() == old(self).sealed_chunks() + 1
                && final(self).chunk_version(old(self).sealed_chunks()) == be32(0)
                && final(self).pos == final(self).sealed_chunks() * (final(self).chunk_size as int)),
            r is Err <==> (old(self).pos as int % (old(self).chunk_size as int) + write_len(old(self).pos as int, old(self).chunk_size as int, data@.len() as int) == old(self).chunk_size
                && old(self).records@.len() + 2 >= u32::MAX),
    {
        let cs = self.chunk_size as u64;
        let n = self.records.len();
        let ghost c = self.content@;
        proof {
            assert(n * cs <= (u32::MAX as int) * (u32::MAX as int)) by (nonlinear_arith)
                requires
                    n < u32::MAX,
                    cs <= u32::MAX,
            ;
        }
        let base = n as u64 * cs;
        let off = (self.pos - base) as usize;
        let tlen = self.tail.len();
        proof {
            vstd::arithmetic::div_mod::lemma_fundamental_div_mod_converse(self.pos as int, cs as int, n as int, off as int);
        }
        let room = cs as usize - off;
        let k: usize = if data.len() < room {
            data.len()
        } else {
            room
        };
        let mut fresh: Vec<u8> = Vec::new();
        append_range(&mut fresh, self.tail.as_slice(), 0, off);
        append_range(&mut fresh, data, 0, k);
        if off + k < tlen {
            append_range(&mut fresh, self.tail.as_slice(), off + k, tlen);
        }
        let ghost d = data@.subrange(0, k as int);
        let ghost c2 = splice(c, self.pos as int, d);
        proof {
            lemma_splice_index(c, self.pos as int, d);
            assert(fresh@ =~= c2.subrange(n * cs, c2.len() as int));
            assert forall|i: int| 0 <= i < n implies chunk_of(c2, cs as int, i) == chunk_of(c, cs as int, i) by {
                assert((i + 1) * cs <= n * cs) by (nonlinear_arith)
                    requires
                        i + 1 <= n,
                        cs > 0,
                ;
                assert((i + 1) * cs == i * cs + cs) by (nonlinear_arith);
                assert(chunk_of(c2, cs as int, i) =~= chunk_of(c, cs as int, i));
            }
            assert((n + 1) * cs == n * cs + cs) by (nonlinear_arith);
            assert((n + 1) * cs <= (u32::MAX as int) * (u32::MAX as int)) by (nonlinear_arith)
                requires
                    n + 1 < u32::MAX,
                    cs <= u32::MAX,
            ;
        }
        if fresh.len() == cs as usize {
            if n + 2 >= u32::MAX as usize {
                return Err(StreamError::Bounds);
            }
            let rec = seal_chunk(self.cipher, &self.key, self.salt, n as u32, 0, false, fresh.as_slice());
            proof {
                assert(rec@.subrange(8, 12) =~= rec@.subrange(0, 12).subrange(8, 12));
                assert(crate::codec::nonce_for(self.salt, n as u32, 0).subrange(8, 12) =~= be32(0));
            }
            proof {
                assert(rec@.subrange(0, 8) =~= crate::codec::nonce_for(self.salt, n as u32, 0).subrange(0, 8));
                assert(crate::codec::nonce_for(self.salt, n as u32, 0).subrange(0, 8) =~= be32(self.salt) + be32(n as u32));
            }
            self.records.push(rec);
            self.tail = Vec::new();
            self.content = Ghost(c2);
            proof {
                assert(chunk_of(c2, cs as int, n as int) =~= fresh@);
                assert(self.tail@ =~= c2.subrange((n + 1) * cs, c2.len() as int));
                assert forall|i: int| 0 <= i < n + 1 implies record_plain(self.cipher, self.key@, i as u32, false, (#[trigger] self.records@[i])@) == Some(chunk_of(self.content@, cs as int, i)) by {
                    if i < n {
                        assert(chunk_of(c2, cs as int, i) == chunk_of(c, cs as int, i));
                    }
                }
            }
        } else {
            self.tail = fresh;
            self.content = Ghost(c2);
            proof {
                assert forall|i: int| 0 <= i < n implies record_plain(self.cipher, self.key@, i as u32, false, (#[trigger] self.records@[i])@) == Some(chunk_of(self.content@, cs as int, i)) by {
                    assert(chunk_of(c2, cs as int, i) == chunk_of(c, cs as int, i));
                }
            }
        }
        self.pos = self.pos + k as u64;
        Ok(k)
    }

    /// Writes bytes at the cursor, up to the end of the chunk the cursor
    /// lies in, and moves the cursor past them. Returns how many were
    /// taken; callers loop for the rest, as with any blocking write.
    /// When the cursor lies in a sealed chunk, `stored` is that chunk's
    /// record as the backing sink holds it (see `chunk_to_load`): it is
    /// opened and verified, and the chunk is reloaded from it before being
    /// changed and sealed again. Elsewhere `stored` is not read.
    /// `NonceExhausted` when the chunk to change has used up its versions;
    /// `TruncatedStream` when `stored` is not a full record; `Integrity`
    /// when it does not verify; `Bounds` when a new chunk would exceed the
    /// index range. On an error nothing changes.
    pub fn write(&mut self, data: &[u8], stored: &[u8]) -> (r: Result<usize, StreamError>)
        requires
            old(self).wf(),
        ensures
            final(self).wf(),
            final(self).spec_cipher() == old(self).spec_cipher(),
            final(self).spec_key() == old(self).spec_key(),
            final(self).spec_chunk_size() == old(self).spec_chunk_size(),
            final(self).spec_salt() == old(self).spec_salt(),
            match r {
                Ok(k) => k == write_len(old(self).spec_pos(), old(self).spec_chunk_size(), data@.len() as int)
                    && final(self).content() == splice(old(self).write_base(data@.len() as int, stored@), old(self).spec_pos(), data@.subrange(0, k as int))
                    && final(self).spec_pos() == old(self).spec_pos() + k,
                Err(_) => final(self).content() == old(self).content() && final(self).spec_pos() == old(self).spec_pos(),
            },
            forall|i: int| 0 <= i < old(self).sealed_chunks() && (r is Err || data@.len() == 0 || i != old(self).spec_pos() / old(self).spec_chunk_size())
                ==> final(self).chunk_version(i) == old(self).chunk_version(i),
            r is Ok && data@.len() > 0 && old(self).spec_pos() < old(self).sealed_chunks() * old(self).spec_chunk_size()
                ==> forall|v: u32| old(self).chunk_version(old(self).spec_pos() / old(self).spec_chunk_size()) == #[trigger] be32(v)
                ==> final(self).chunk_version(old(self).spec_pos() / old(self).spec_chunk_size()) == be32((v + 1) as u32),
            final(self).sealed_chunks() == old(self).sealed_chunks() || (final(self).sealed_chunks() == old(self).sealed_chunks() + 1
                && final(self).chunk_version(old(self).sealed_chunks()) == be32(0)
                && final(self).spec_pos() == final(self).sealed_chunks() * final(self).spec_chunk_size()),
            final(self).sealed_chunks() == final(self).content().len() as int / final(self).spec_chunk_size(),
            r matches Err(e) ==> (e == StreamError::NonceExhausted || e == StreamError::Bounds
                || e == StreamError::TruncatedStream || e == StreamError::Integrity),
            r == Err::<usize, StreamError>(StreamError::TruncatedStream) <==> (data@.len() > 0
                && old(self).spec_pos() < old(self).sealed_chunks() * old(self).spec_chunk_size()
                && old(self).chunk_version(old(self).spec_pos() / old(self).spec_chunk_size()) != be32(u32::MAX)
                && stored@.len() != old(self).spec_chunk_size() + OVERHEAD),
            r == Err::<usize, StreamError>(StreamError::Integrity) <==> (data@.len() > 0
                && old(self).spec_pos() < old(self).sealed_chunks() * old(self).spec_chunk_size()
                && old(self).chunk_version(old(self).spec_pos() / old(self).spec_chunk_size()) != be32(u32::MAX)
                && stored@.len() == old(self).spec_chunk_size() + OVERHEAD
                && record_plain(old(self).spec_cipher(), old(self).spec_key(), (old(self).spec_pos() / old(self).spec_chunk_size()) as u32, false, stored@) is None),
            r == Err::<usize, StreamError>(StreamError::NonceExhausted) <==> (data@.len() > 0
                && old(self).spec_pos() < old(self).sealed_chunks() * old(self).spec_chunk_size()
                && old(self).chunk_version(old(self).spec_pos() / old(self).spec_chunk_size()) == be32(u32::MAX)),
            r == Err::<usize, StreamError>(StreamError::Bounds) <==> (data@.len() > 0
                && old(self).spec_pos() >= old(self).sealed_chunks() * old(self).spec_chunk_size()
                && old(self).spec_pos() % old(self).spec_chunk_size() + write_len(old(self).spec_pos(), old(self).spec_chunk_size(), data@.len() as int) == old(self).spec_chunk_size()
                && old(self).sealed_chunks() + 2 >= u32::MAX),
    {
        if data.len() == 0 {
            proof {
                lemma_div_mod(self.pos as int, self.chunk_size as int);
                assert(splice(self.content@, self.pos as int, data@.subrange(0, 0)) =~= self.content@);
            }
            proof {
                self.lemma_sealed_count();
            }
            return Ok(0);
        }
        let n = self.records.len();
        let cs = self.chunk_size as u64;
        proof {
            assert(n * cs <= (u32::MAX as int) * (u32::MAX as int)) by (nonlinear_arith)
                requires
                    n < u32::MAX,
                    cs <= u32::MAX,
            ;
        }
        let r = if self.pos < n as u64 * cs {
            self.write_sealed(data, stored)
        } else {
            self.write_tail(data)
        };
        proof {
            self.lemma_sealed_count();
        }
        r
    }

    /// The writer's own record of the chunk the cursor lies in, if sealed;
    /// the write base it gives is the content unchanged.
    fn own_record(&self) -> (r: Vec<u8>)
        requires
            self.wf(),
        ensures
            forall|n: int| #[trigger] self.write_base(n, r@) == self.content(),
            self.spec_pos() < self.sealed_chunks() * self.spec_chunk_size() ==> r@.len() == self.spec_chunk_size() + OVERHEAD
                && record_plain(self.spec_cipher(), self.spec_key(), (self.spec_pos() / self.spec_chunk_size()) as u32, false, r@) is Some,
    {
        let cs = self.chunk_size as u64;
        let n = self.records.len();
        proof {
            assert(n * cs <= (u32::MAX as int) * (u32::MAX as int)) by (nonlinear_arith)
                requires
                    n < u32::MAX,
                    cs <= u32::MAX,
            ;
        }
        if self.pos < n as u64 * cs {
            let j = self.pos / cs;
            proof {
                lemma_div_mod(self.pos as int, cs as int);
                if j >= n {
                    assert(j * cs >= n * cs) by (nonlinear_arith)
                        requires
                            j >= n,
                            cs > 0,
                    ;
                }
                assert((j + 1) * cs <= n * cs) by (nonlinear_arith)
                    requires
                        j + 1 <= n,
                        cs > 0,
                ;
            }
            let rec = &self.records[j as usize];
            let r = crate::codec::slice_to_vec(rec.as_slice(), 0, rec.len());
            proof {
                assert(rec@.subrange(0, rec@.len() as int) =~= rec@);
                let c = self.content@;
                assert((j + 1) * cs == j * cs + cs) by (nonlinear_arith);
                lemma_with_chunk_index(c, cs as int, j as int, chunk_of(c, cs as int, j as int));
                assert(with_chunk(c, cs as int, j as int, chunk_of(c, cs as int, j as int)) =~= c);
            }
            r
        } else {
            Vec::new()
        }
    }

    /// Whether writing `n` bytes at the cursor is sure to succeed: no sealed
    /// chunk it touches has used up its nonce versions, and every chunk it
    /// fills can be indexed.
    pub open spec fn write_all_fits(&self, n: int) -> bool {
        let cs = self.spec_chunk_size();
        &&& forall|i: int| 0 <= i < self.sealed_chunks() && i * cs < self.spec_pos() + n && self.spec_pos() < i * cs + cs
            ==> #[trigger] self.chunk_version(i) != be32(u32::MAX)
        &&& (self.spec_pos() + n) / cs + 2 < u32::MAX
    }

    /// Writes all of `data` at the cursor, chunk by chunk, for a writer whose
    /// own records are the backing store: each sealed chunk is reloaded from
    /// the writer's record of it. Succeeds whenever `write_all_fits` holds;
    /// on an error, the bytes before the failing chunk stay written and the
    /// cursor goes back to where it was.
    pub fn write_all(&mut self, data: &[u8]) -> (r: Result<(), StreamError>)
        requires
            old(self).wf(),
        ensures
            final(self).wf(),
            final(self).spec_cipher() == old(self).spec_cipher(),
            final(self).spec_key() == old(self).spec_key(),
            final(self).spec_chunk_size() == old(self).spec_chunk_size(),
            final(self).spec_salt() == old(self).spec_salt(),
            r is Ok ==> final(self).content() == splice(old(self).content(), old(self).spec_pos(), data@)
                && final(self).spec_pos() == old(self).spec_pos() + data@.len(),
            r matches Err(e) ==> (e == StreamError::NonceExhausted || e == StreamError::Bounds),
            r is Err ==> exists|m: int| 0 <= m < data@.len()
                && final(self).content() == #[trigger] splice(old(self).content(), old(self).spec_pos(), data@.subrange(0, m)),
            r is Err ==> final(self).spec_pos() == old(self).spec_pos(),
            old(self).write_all_fits(data@.len() as int) ==> r is Ok,
            final(self).sealed_chunks() >= old(self).sealed_chunks(),
            forall|i: int| old(self).sealed_chunks() <= i < final(self).sealed_chunks() ==> #[trigger] final(self).chunk_version(i) == be32(0),
            forall|i: int| 0 <= i < old(self).sealed_chunks() && (i * old(self).spec_chunk_size() + old(self).spec_chunk_size() <= old(self).spec_pos()
                || i * old(self).spec_chunk_size() >= old(self).spec_pos() + data@.len())
                ==> #[trigger] final(self).chunk_version(i) == old(self).chunk_version(i),
    {
        let ghost cs = self.chunk_size as int;
        let ghost p0 = self.pos as int;
        let start = self.pos;
        let mut done: usize = 0;
        while done < data.len()
            invariant
                old(self).wf(),
                self.wf(),
                done <= data@.len(),
                cs == self.spec_chunk_size(),
                cs == old(self).spec_chunk_size(),
                p0 == old(self).spec_pos(),
                start == p0,
                self.sealed_chunks() >= old(self).sealed_chunks(),
                self.sealed_chunks() > old(self).sealed_chunks() ==> self.spec_pos() >= self.sealed_chunks() * cs,
                forall|i: int| old(self).sealed_chunks() <= i < self.sealed_chunks() ==> #[trigger] self.chunk_version(i) == be32(0),
                forall|i: int| 0 <= i < old(self).sealed_chunks() && (i * cs + cs <= p0 || i * cs >= p0 + data@.len())
                    ==> #[trigger] self.chunk_version(i) == old(self).chunk_version(i),
                self.spec_cipher() == old(self).spec_cipher(),
                self.spec_key() == old(self).spec_key(),
                self.spec_salt() == old(self).spec_salt(),
                self.content() == splice(old(self).content(), p0, data@.subrange(0, done as int)),
                self.spec_pos() == p0 + done,
                old(self).write_all_fits(data@.len() as int) && done < data@.len() ==> self.write_all_fits(data@.len() - done),
            decreases data@.len() - done,
        {
            let rest = crate::codec::slice_to_vec(data, done, data.len());
            let ghost before = *self;
            proof {
                self.lemma_sealed_count();
                let pos = self.spec_pos();
                let j = pos / cs;
                lemma_div_mod(pos, cs);
                assert((j + 1) * cs == j * cs + cs) by (nonlinear_arith);
                if old(self).write_all_fits(data@.len() as int) {
                    if pos < self.sealed_chunks() * cs {
                        if j >= self.sealed_chunks() {
                            assert(j * cs >= self.sealed_chunks() * cs) by (nonlinear_arith)
                                requires
                                    j >= self.sealed_chunks(),
                                    cs > 0,
                            ;
                        }
                        assert(self.chunk_version(j) != be32(u32::MAX));
                    } else {
                        let q = (p0 + data@.len()) / cs;
                        lemma_div_mod(p0 + data@.len(), cs);
                        assert(self.spec_pos() + (data@.len() - done) == p0 + data@.len());
                        assert((self.spec_pos() + (data@.len() - done)) / cs == q);
                        if j < self.sealed_chunks() {
                            assert(j * cs + cs <= self.sealed_chunks() * cs) by (nonlinear_arith)
                                requires
                                    j + 1 <= self.sealed_chunks(),
                                    cs > 0,
                            ;
                        }
                        if j > self.sealed_chunks() {
                            assert(j * cs >= self.sealed_chunks() * cs + cs) by (nonlinear_arith)
                                requires
                                    j >= self.sealed_chunks() + 1,
                                    cs > 0,
                            ;
                        }
                        if pos % cs + write_len(pos, cs, rest@.len() as int) == cs {
                            if j + 1 > q {
                                assert(j * cs + cs >= q * cs + cs) by (nonlinear_arith)
                                    requires
                                        j >= q,
                                        cs > 0,
                                ;
                            }
                        }
                    }
                }
            }
            let stored = self.own_record();
            let k = match self.write(rest.as_slice(), stored.as_slice()) {
                Ok(k) => k,
                Err(e) => {
                    proof {
                        assert(data@.subrange(0, done as int).len() == done);
                        self.lemma_sealed_count();
                        lemma_splice_index(old(self).content(), p0, data@.subrange(0, done as int));
                        assert(start == p0);
                        assert forall|i: int| old(self).sealed_chunks() <= i < self.sealed_chunks() implies #[trigger] self.chunk_version(i) == be32(0) by {
                            if i < before.sealed_chunks() {
                                assert(before.chunk_version(i) == be32(0));
                            }
                        }
                        assert forall|i: int| 0 <= i < old(self).sealed_chunks() && (i * cs + cs <= p0 || i * cs >= p0 + data@.len())
                            implies #[trigger] self.chunk_version(i) == old(self).chunk_version(i) by {
                            assert(before.chunk_version(i) == old(self).chunk_version(i));
                        }
                    }
                    let ghost mid = *self;
                    self.pos = start;
                    proof {
                        assert(self.records == mid.records);
                        assert forall|i: int| old(self).sealed_chunks() <= i < self.sealed_chunks() implies #[trigger] self.chunk_version(i) == be32(0) by {
                            assert(mid.chunk_version(i) == be32(0));
                        }
                        assert forall|i: int| 0 <= i < old(self).sealed_chunks() && (i * cs + cs <= p0 || i * cs >= p0 + data@.len())
                            implies #[trigger] self.chunk_version(i) == old(self).chunk_version(i) by {
                            assert(mid.chunk_version(i) == old(self).chunk_version(i));
                        }
                    }
                    return Err(e);
                },
            };
            proof {
                lemma_div_mod(before.spec_pos(), cs);
                let c0 = old(self).content();
                let d1 = data@.subrange(0, done as int);
                let d2 = rest@.subrange(0, k as int);
                lemma_splice_index(c0, p0, d1);
                lemma_splice_index(splice(c0, p0, d1), p0 + done, d2);
                lemma_splice_index(c0, p0, data@.subrange(0, done + k));
                assert(splice(splice(c0, p0, d1), p0 + done, d2) =~= splice(c0, p0, data@.subrange(0, done + k)));
                let j = before.spec_pos() / cs;
                assert((j + 1) * cs == j * cs + cs) by (nonlinear_arith);
                if self.sealed_chunks() > before.sealed_chunks() {
                    assert(self.spec_pos() == self.sealed_chunks() * cs);
                } else if self.sealed_chunks() > old(self).sealed_chunks() {
                    assert(self.spec_pos() >= before.spec_pos());
                }
                assert forall|i: int| old(self).sealed_chunks() <= i < self.sealed_chunks() implies #[trigger] self.chunk_version(i) == be32(0) by {
                    if i < before.sealed_chunks() {
                        if before.spec_pos() >= before.sealed_chunks() * cs {
                            if j < before.sealed_chunks() {
                                assert(j * cs + cs <= before.sealed_chunks() * cs) by (nonlinear_arith)
                                    requires
                                        j + 1 <= before.sealed_chunks(),
                                        cs > 0,
                                ;
                            }
                            assert(i != j);
                        } else {
                            assert(before.sealed_chunks() == old(self).sealed_chunks());
                        }
                        assert(before.chunk_version(i) == be32(0));
                    }
                }
                assert forall|i: int| 0 <= i < old(self).sealed_chunks() && (i * cs + cs <= p0 || i * cs >= p0 + data@.len())
                    implies #[trigger] self.chunk_version(i) == old(self).chunk_version(i) by {
                    assert(before.chunk_version(i) == old(self).chunk_version(i));
                    if i == j {
                        assert(j * cs <= before.spec_pos());
                    }
                }
            }
            done = done + k;
            let ghost j = before.spec_pos() / cs;
            proof {
                if old(self).write_all_fits(data@.len() as int) && done < data@.len() {
                    assert forall|i: int| 0 <= i < self.sealed_chunks() && i * cs < self.spec_pos() + (data@.len() - done) && self.spec_pos() < i * cs + cs
                        implies #[trigger] self.chunk_version(i) != be32(u32::MAX) by {
                        assert((i + 1) * cs == i * cs + cs) by (nonlinear_arith);
                        if i == j {
                            assert(k < rest@.len());
                        }
                        if i >= before.sealed_chunks() {
                            assert(self.sealed_chunks() == before.sealed_chunks() + 1);
                            if be32(0) == be32(u32::MAX) {
                                crate::codec::lemma_be32_injective(0, u32::MAX);
                            }
                        } else {
                            assert(before.chunk_version(i) != be32(u32::MAX));
                        }
                    }
                }
            }
        }
        proof {
            assert(data@.subrange(0, done as int) =~= data@);
        }
        Ok(())
    }

    /// What the backing sink holds before `finish`: the header, then the
    /// record of every full chunk sealed so far. A reader refuses it until
    /// the final record follows.
    pub fn flushed(&self) -> (r: Vec<u8>)
        requires
            self.wf(),
        ensures
            r@.len() == record_start(self.spec_chunk_size(), self.sealed_chunks()),
            r@.subrange(0, HEADER_LEN as int) == header_bytes(self.spec_cipher(), self.spec_salt(), self.spec_chunk_size() as u32),
            forall|j: int| 0 <= j < self.sealed_chunks() ==> record_plain(self.spec_cipher(), self.spec_key(), j as u32, false, #[trigger] stream_record(r@, self.spec_chunk_size(), j))
                == Some(chunk_of(self.content(), self.spec_chunk_size(), j)),
            forall|j: int| 0 <= j < self.sealed_chunks() ==> (#[trigger] stream_record(r@, self.spec_chunk_size(), j)) == self.record_of(j),
            forall|j: int| 0 <= j < self.sealed_chunks() ==> (#[trigger] stream_record(r@, self.spec_chunk_size(), j)).subrange(0, 12) == self.chunk_nonce(j),
    {
        let ghost cs = self.chunk_size as int;
        let n = self.records.len();
        let mut out = encode_header(Header { cipher: self.cipher, salt: self.salt, chunk_size: self.chunk_size });
        let ghost head = out@;
        let mut i: usize = 0;
        while i < n
            invariant
                self.wf(),
                cs == self.chunk_size as int,
                n == self.records@.len(),
                head.len() == HEADER_LEN,
                i <= n,
                out@.len() == record_start(cs, i as int),
                out@.subrange(0, HEADER_LEN as int) == head,
                forall|j: int| 0 <= j < i ==> #[trigger] stream_record(out@, cs, j) == self.records@[j]@,
            decreases n - i,
        {
            let ghost prev = out@;
            let rec = &self.records[i];
            append_range(&mut out, rec.as_slice(), 0, rec.len());
            proof {
                assert(rec@.subrange(0, rec@.len() as int) =~= rec@);
                lemma_record_order(i as int, i + 1, cs);
                assert forall|j: int| 0 <= j < i + 1 implies #[trigger] stream_record(out@, cs, j) == self.records@[j]@ by {
                    if j < i {
                        lemma_record_order(j, i as int, cs);
                        assert(stream_record(out@, cs, j) =~= stream_record(prev, cs, j));
                    } else {
                        lemma_record_order(j, j + 1, cs);
                        assert(stream_record(out@, cs, j) =~= self.records@[j]@);
                    }
                }
                assert(out@.subrange(0, HEADER_LEN as int) =~= prev.subrange(0, HEADER_LEN as int));
            }
            i = i + 1;
        }
        out
    }

    /// Seals the trailing chunk, marked as the last one, and lays out the
    /// whole stream: header, then every record in index order.
    pub fn finish(self) -> (r: Vec<u8>)
        requires
            self.wf(),
        ensures
            stream_holds(self.spec_cipher(), self.spec_key(), self.spec_chunk_size() as u32, r@, self.content()),
            r@.subrange(0, HEADER_LEN as int) == header_bytes(self.spec_cipher(), self.spec_salt(), self.spec_chunk_size() as u32),
            forall|j: int| 0 <= j < self.sealed_chunks() ==> (#[trigger] stream_record(r@, self.spec_chunk_size(), j)).subrange(0, 12) == self.chunk_nonce(j),
            r@.subrange(record_start(self.spec_chunk_size(), self.sealed_chunks()), r@.len() as int).subrange(0, 12)
                == nonce_for(self.spec_salt(), self.sealed_chunks() as u32, 0),
            forall|j: int| 0 <= j < self.sealed_chunks() ==> (#[trigger] stream_record(r@, self.spec_chunk_size(), j)).subrange(12, self.spec_chunk_size() + OVERHEAD)
                == seal_of(self.spec_cipher(), self.spec_key(), self.chunk_nonce(j), aad_for(j as u32, false), chunk_of(self.content(), self.spec_chunk_size(), j)),
            r@.subrange(record_start(self.spec_chunk_size(), self.sealed_chunks()) + 12, r@.len() as int)
                == seal_of(self.spec_cipher(), self.spec_key(), nonce_for(self.spec_salt(), self.sealed_chunks() as u32, 0),
                    aad_for(self.sealed_chunks() as u32, true), self.content().subrange(self.sealed_chunks() * self.spec_chunk_size(), self.content().len() as int)),
    {
        let ghost cs = self.chunk_size as int;
        let n = self.records.len();
        let mut out = self.flushed();
        let ghost head = out@.subrange(0, HEADER_LEN as int);
        let last = seal_chunk(self.cipher, &self.key, self.salt, n as u32, 0, true, self.tail.as_slice());
        let ghost prev = out@;
        append_range(&mut out, last.as_slice(), 0, last.len());
        proof {
            let c = self.content@;
            assert(last@.subrange(0, last@.len() as int) =~= last@);
            vstd::arithmetic::div_mod::lemma_fundamental_div_mod_converse(c.len() as int, cs, n as int, self.tail@.len() as int);
            assert(out@.subrange(0, HEADER_LEN as int) =~= prev.subrange(0, HEADER_LEN as int));
            assert(out@[0] == head[0]);
            assert(out@.subrange(5, 9) =~= head.subrange(5, 9));
            assert(head.subrange(5, 9) =~= be32(self.chunk_size));
            assert forall|j: int| 0 <= j < n implies record_plain(self.cipher, self.key@, j as u32, false, #[trigger] stream_record(out@, cs, j)) == Some(chunk_of(c, cs, j)) by {
                lemma_record_order(j, n as int, cs);
                assert(stream_record(out@, cs, j) =~= stream_record(prev, cs, j));
                assert(record_plain(self.cipher, self.key@, j as u32, false, stream_record(prev, cs, j)) == Some(chunk_of(c, cs, j)));
            }
            assert forall|j: int| 0 <= j < n implies (#[trigger] stream_record(out@, cs, j)).subrange(0, 12) == self.chunk_nonce(j) by {
                lemma_record_order(j, n as int, cs);
                assert(stream_record(out@, cs, j) =~= stream_record(prev, cs, j));
            }
            assert(out@.subrange(record_start(cs, n as int), out@.len() as int) =~= last@);
            assert(out@.subrange(record_start(cs, n as int) + 12, out@.len() as int) =~= last@.subrange(12, last@.len() as int));
            assert forall|j: int| 0 <= j < n implies (#[trigger] stream_record(out@, cs, j)).subrange(12, cs + OVERHEAD)
                == seal_of(self.cipher, self.key@, self.chunk_nonce(j), aad_for(j as u32, false), chunk_of(c, cs, j)) by {
                lemma_record_order(j, n as int, cs);
                assert(stream_record(out@, cs, j) =~= stream_record(prev, cs, j));
                assert(stream_record(prev, cs, j) == self.records@[j]@);
            }
        }
        out
    }

    /// The sealed chunk whose stored record the next `write` reloads, if the
    /// cursor lies in one.
    pub fn chunk_to_load(&self) -> (r: Option<u64>)
        requires
            self.wf(),
        ensures
            r == if self.spec_pos() < self.sealed_chunks() * self.spec_chunk_size() {
                Some((self.spec_pos() / self.spec_chunk_size()) as u64)
            } else {
                None::<u64>
            },
    {
        let cs = self.chunk_size as u64;
        let n = self.records.len() as u64;
        proof {
            assert(n * cs <= (u32::MAX as int) * (u32::MAX as int)) by (nonlinear_arith)
                requires
                    n < u32::MAX,
                    cs <= u32::MAX,
            ;
        }
        if self.pos < n * cs {
            Some(self.pos / cs)
        } else {
            None
        }
    }

    /// The salt that every nonce of this stream begins with.
    pub fn salt(&self) -> (r: u32)
        ensures
            r == self.spec_salt(),
    {
        self.salt
    }

    /// How many full chunks are sealed.
    pub fn sealed_count(&self) -> (r: u64)
        requires
            self.wf(),
        ensures
            r == self.sealed_chunks(),
    {
        self.records.len() as u64
    }

    pub fn chunk_size(&self) -> (r: u32)
        ensures
            r == self.spec_chunk_size(),
    {
        self.chunk_size
    }

    /// The record of sealed chunk `i`, as it stands in the store at
    /// `record_start(chunk_size, i)`.
    pub fn sealed_record(&self, i: u64) -> (r: &Vec<u8>)
        requires
            self.wf(),
            i < self.sealed_chunks(),
        ensures
            r@.len() == self.spec_chunk_size() + OVERHEAD,
            r@.subrange(0, 12) == self.chunk_nonce(i as int),
            record_plain(self.spec_cipher(), self.spec_key(), i as u32, false, r@) == Some(chunk_of(self.content(), self.spec_chunk_size(), i as int)),
    {
        &self.records[i as usize]
    }

    /// Length of the plaintext written so far.
    pub fn len(&self) -> (r: u64)
        requires
            self.wf(),
        ensures
            r == self.content().len(),
    {
        let n = self.records.len() as u64;
        let cs = self.chunk_size as u64;
        proof {
            assert(n * cs <= (u32::MAX as int) * (u32::MAX as int)) by (nonlinear_arith)
                requires
                    n < u32::MAX,
                    cs <= u32::MAX,
            ;
        }
        n * cs + self.tail.len() as u64
    }
}

} // verus!

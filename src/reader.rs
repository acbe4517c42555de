use vstd::prelude::*;
use crate::cipher::{cipher_id, Cipher, KEY_LEN};
use crate::codec::{
    be32, chunk_of, decode_header, header_bytes, lemma_be32_injective, lemma_div_mod, lemma_record_order,
    open_chunk, record_plain, record_start, slice_to_vec, stream_holds, stream_record, HEADER_LEN,
    OVERHEAD,
};
use crate::error::StreamError;
use crate::key::SecretKey;

verus! {

/// The plaintext that chunk `j` of store `b` opens to, where `b` holds `n`
/// full records before its final one.
pub open spec fn chunk_opened(cipher: Cipher, key: Seq<u8>, cs: int, b: Seq<u8>, n: int, j: int) -> Option<Seq<u8>> {
    if j < n {
        record_plain(cipher, key, j as u32, false, stream_record(b, cs, j))
    } else {
        record_plain(cipher, key, n as u32, true, b.subrange(record_start(cs, n), b.len() as int))
    }
}

/// How many bytes one `read` of at most `max` bytes at `pos` returns: up to
/// the end of the chunk `pos` lies in, and nothing at or past the end.
pub open spec fn read_len(pos: int, cs: int, len: int, max: int) -> int {
    if pos >= len {
        0
    } else {
        let chunk_end = (pos / cs) * cs + cs;
        let end = if chunk_end < len { chunk_end } else { len };
        if max < end - pos { max } else { end - pos }
    }
}

/// A store laid out with `n` full records and a final record of `rem`
/// bytes holds `n` full chunks and `rem - OVERHEAD` bytes more.
pub proof fn lemma_holds_shape(cipher: Cipher, key: Seq<u8>, cs: u32, b: Seq<u8>, c: Seq<u8>, n: int, rem: int)
    requires
        stream_holds(cipher, key, cs, b, c),
        n >= 0,
        b.len() == record_start(cs as int, n) + rem,
        OVERHEAD <= rem < OVERHEAD + cs,
    ensures
        c.len() as int / (cs as int) == n,
        c.len() == n * cs + rem - OVERHEAD,
{
    let m = c.len() as int / (cs as int);
    let r1 = (c.len() as int) % (cs as int);
    let p = cs + OVERHEAD;
    lemma_div_mod(c.len() as int, cs as int);
    assert(m * p + (OVERHEAD + r1) == n * p + rem) by (nonlinear_arith)
        requires
            HEADER_LEN + m * p + OVERHEAD + r1 == HEADER_LEN + n * p + rem,
    ;
    vstd::arithmetic::div_mod::lemma_fundamental_div_mod_converse(n * p + rem, p, m, OVERHEAD + r1);
    vstd::arithmetic::div_mod::lemma_fundamental_div_mod_converse(n * p + rem, p, n, rem - OVERHEAD + OVERHEAD);
}

/// A store holds at most one plaintext: what a reader returns from it is
/// what was written into it.
pub proof fn lemma_holds_unique(cipher: Cipher, key: Seq<u8>, cs: u32, b: Seq<u8>, c1: Seq<u8>, c2: Seq<u8>)
    requires
        stream_holds(cipher, key, cs, b, c1),
        stream_holds(cipher, key, cs, b, c2),
    ensures
        c1 == c2,
{
    let k = cs as int;
    let n = c1.len() as int / k;
    lemma_div_mod(c1.len() as int, k);
    let rem = b.len() - record_start(k, n);
    lemma_holds_shape(cipher, key, cs, b, c1, n, rem);
    lemma_holds_shape(cipher, key, cs, b, c2, n, rem);
    assert forall|x: int| 0 <= x < c1.len() implies c1[x] == c2[x] by {
        let i = x / k;
        lemma_div_mod(x, k);
        assert((i + 1) * k == i * k + k) by (nonlinear_arith);
        if i > n {
            assert(i * k >= n * k + k) by (nonlinear_arith)
                requires
                    i >= n + 1,
                    k > 0,
            ;
        }
        if i < n {
            assert((i + 1) * k <= n * k) by (nonlinear_arith)
                requires
                    i + 1 <= n,
                    k > 0,
            ;
            assert(record_plain(cipher, key, i as u32, false, stream_record(b, k, i)) == Some(chunk_of(c1, k, i)));
            assert(record_plain(cipher, key, i as u32, false, stream_record(b, k, i)) == Some(chunk_of(c2, k, i)));
            assert(chunk_of(c1, k, i)[x - i * k] == c1[x]);
            assert(chunk_of(c2, k, i)[x - i * k] == c2[x]);
        } else {
            assert(c1.subrange(n * k, c1.len() as int)[x - n * k] == c1[x]);
            assert(c2.subrange(n * k, c2.len() as int)[x - n * k] == c2[x]);
        }
    }
    assert(c1 =~= c2);
}

/// A store that ends right after a full record, as a sink does before the
/// writer is finished, has no room for a final record: readers refuse it.
pub proof fn lemma_unfinished_rejected(b: Seq<u8>, cs: u32, m: int)
    requires
        cs > 0,
        m >= 0,
        b.len() == record_start(cs as int, m),
    ensures
        (b.len() - HEADER_LEN) % (cs + OVERHEAD) < OVERHEAD,
        forall|cipher: Cipher, key: Seq<u8>, c: Seq<u8>| !#[trigger] stream_holds(cipher, key, cs, b, c),
{
    let p = cs + OVERHEAD;
    vstd::arithmetic::div_mod::lemma_fundamental_div_mod_converse(m * p, p, m, 0);
    assert forall|cipher: Cipher, key: Seq<u8>, c: Seq<u8>| !#[trigger] stream_holds(cipher, key, cs, b, c) by {
        if stream_holds(cipher, key, cs, b, c) {
            let n = c.len() as int / (cs as int);
            let r1 = (c.len() as int) % (cs as int);
            lemma_div_mod(c.len() as int, cs as int);
            assert(m * p == n * p + (OVERHEAD + r1));
            vstd::arithmetic::div_mod::lemma_fundamental_div_mod_converse(m * p, p, n, OVERHEAD + r1);
        }
    }
}

/// Serves reads at any position of a sealed store, opening (and
/// verifying) one chunk at a time and keeping the last one opened.
pub struct Reader {
    cipher: Cipher,
    key: SecretKey,
    store: Vec<u8>,
    chunk_size: u32,
    full: u64,
    len: u64,
    pos: u64,
    cached: Option<(u64, Vec<u8>)>,
}

impl Reader {
    pub closed spec fn spec_pos(&self) -> int {
        self.pos as int
    }

    pub closed spec fn spec_len(&self) -> int {
        self.len as int
    }

    pub closed spec fn spec_chunk_size(&self) -> int {
        self.chunk_size as int
    }

    pub closed spec fn spec_cipher(&self) -> Cipher {
        self.cipher
    }

    pub closed spec fn spec_key(&self) -> Seq<u8> {
        self.key@
    }

    pub closed spec fn spec_store(&self) -> Seq<u8> {
        self.store@
    }

    /// The chunk whose plaintext is kept from the last open, if any.
    pub closed spec fn cached_chunk(&self) -> Option<int> {
        match self.cached {
            Some((j, _)) => Some(j as int),
            None => None,
        }
    }

    /// How many full records the store holds before its final one.
    pub open spec fn spec_full(&self) -> int {
        (self.spec_store().len() - HEADER_LEN) / (self.spec_chunk_size() + OVERHEAD)
    }

    /// What chunk `j` of the store opens to.
    pub open spec fn opened(&self, j: int) -> Option<Seq<u8>> {
        chunk_opened(self.spec_cipher(), self.spec_key(), self.spec_chunk_size(), self.spec_store(), self.spec_full(), j)
    }

    pub closed spec fn wf(&self) -> bool {
        let cs = self.chunk_size as int;
        let n = self.full as int;
        let b = self.store@;
        &&& self.key@.len() == KEY_LEN
        &&& cs > 0
        &&& b.len() >= HEADER_LEN
        &&& b[0] == cipher_id(self.cipher)
        &&& b.subrange(5, 9) == be32(self.chunk_size)
        &&& n < u32::MAX
        &&& n == (b.len() - HEADER_LEN) / (cs + OVERHEAD)
        &&& record_start(cs, n) + OVERHEAD <= b.len() < record_start(cs, n) + OVERHEAD + cs
        &&& self.len == n * cs + (b.len() - record_start(cs, n) - OVERHEAD)
        &&& (self.cached matches Some((j, p)) ==> (j <= n && self.opened(j as int) == Some(p@)
            && p@.len() == if j < n { cs } else { self.len - n * cs }))
    }

    /// Whether the store holds `c`.
    pub open spec fn holds(&self, c: Seq<u8>) -> bool {
        stream_holds(self.spec_cipher(), self.spec_key(), self.spec_chunk_size() as u32, self.spec_store(), c)
    }

    /// Opens a sealed store for reading: reads its header and checks its
    /// final record. `Configuration` for a key of the wrong length, a
    /// header naming another or no known cipher, or a zero chunk size;
    /// `TruncatedStream` when the store is shorter than its layout needs
    /// (a stream that was never finished has no final record); `Integrity`
    /// when the final record does not verify. Every store that holds some
    /// plaintext under this cipher and key is accepted.
    pub fn open(store: Vec<u8>, cipher: Cipher, key: SecretKey) -> (r: Result<Reader, StreamError>)
        ensures
            r matches Ok(rd) ==> (rd.wf() && rd.spec_pos() == 0 && rd.spec_store() == store@
                && rd.spec_cipher() == cipher && rd.spec_key() == key@
                && store@.subrange(5, 9) == be32(rd.spec_chunk_size() as u32) && rd.spec_chunk_size() > 0
                && (store@.len() - HEADER_LEN) % (rd.spec_chunk_size() + OVERHEAD) >= OVERHEAD),
            (key@.len() == KEY_LEN && exists|cs: u32, c: Seq<u8>| stream_holds(cipher, key@, cs, store@, c)) ==> r is Ok,
            key@.len() != KEY_LEN ==> r == Err::<Reader, StreamError>(StreamError::Configuration),
            store@.len() < HEADER_LEN && key@.len() == KEY_LEN ==> r == Err::<Reader, StreamError>(StreamError::TruncatedStream),
            store@.len() >= HEADER_LEN && store@[0] != cipher_id(cipher) ==> r == Err::<Reader, StreamError>(StreamError::Configuration),
            (key@.len() == KEY_LEN && store@.len() >= HEADER_LEN && store@[0] == cipher_id(cipher)
                && exists|cs: u32| cs > 0 && #[trigger] be32(cs) == store@.subrange(5, 9)
                && (store@.len() - HEADER_LEN) % (cs + OVERHEAD) < OVERHEAD)
                ==> r == Err::<Reader, StreamError>(StreamError::TruncatedStream),
    {
        if key.len() != KEY_LEN {
            return Err(StreamError::Configuration);
        }
        let header = match decode_header(store.as_slice()) {
            Ok(h) => h,
            Err(e) => {
                proof {
                    crate::cipher::lemma_cipher_id_round_trip(cipher);
                    if exists|cs: u32, c: Seq<u8>| stream_holds(cipher, key@, cs, store@, c) {
                        let (cs, c) = choose|cs: u32, c: Seq<u8>| stream_holds(cipher, key@, cs, store@, c);
                        if store@.subrange(5, 9) == be32(0) {
                            lemma_be32_injective(cs, 0);
                        }
                    }
                    if exists|cs: u32| cs > 0 && #[trigger] be32(cs) == store@.subrange(5, 9) {
                        let cs = choose|cs: u32| cs > 0 && #[trigger] be32(cs) == store@.subrange(5, 9);
                        if store@.subrange(5, 9) == be32(0) {
                            lemma_be32_injective(cs, 0);
                        }
                    }
                }
                return Err(e);
            },
        };
        proof {
            assert(header_bytes(header.cipher, header.salt, header.chunk_size).subrange(5, 9) =~= be32(header.chunk_size));
            assert(store@.subrange(5, 9) =~= store@.subrange(0, HEADER_LEN as int).subrange(5, 9));
            assert(store@[0] == store@.subrange(0, HEADER_LEN as int)[0]);
            crate::cipher::lemma_cipher_id_round_trip(cipher);
            crate::cipher::lemma_cipher_id_round_trip(header.cipher);
        }
        if header.cipher != cipher {
            return Err(StreamError::Configuration);
        }
        let cs = header.chunk_size as u64;
        let body = (store.len() - HEADER_LEN) as u64;
        let phys = cs + OVERHEAD as u64;
        let n = body / phys;
        let rem = body % phys;
        proof {
            lemma_div_mod(body as int, phys as int);
        }
        if rem < OVERHEAD as u64 || n >= u32::MAX as u64 {
            proof {
                if exists|cs2: u32, c: Seq<u8>| stream_holds(cipher, key@, cs2, store@, c) {
                    let (cs2, c) = choose|cs2: u32, c: Seq<u8>| stream_holds(cipher, key@, cs2, store@, c);
                    assert(store@.subrange(5, 9) =~= be32(header.chunk_size));
                    lemma_be32_injective(cs2, header.chunk_size);
                    let m = c.len() as int / (cs as int);
                    let r1 = (c.len() as int) % (cs as int);
                    lemma_div_mod(c.len() as int, cs as int);
                    assert(body == m * phys + (OVERHEAD + r1)) by (nonlinear_arith)
                        requires
                            store@.len() == HEADER_LEN + m * (cs + OVERHEAD) + OVERHEAD + r1,
                            body == store@.len() - HEADER_LEN,
                            phys == cs + OVERHEAD,
                    ;
                    vstd::arithmetic::div_mod::lemma_fundamental_div_mod_converse(body as int, phys as int, m, OVERHEAD + r1);
                }
            }
            return Err(StreamError::TruncatedStream);
        }
        let start = HEADER_LEN + (n * phys) as usize;
        proof {
            assert(start == record_start(cs as int, n as int));
        }
        let last = slice_to_vec(store.as_slice(), start, store.len());
        let plain = match open_chunk(cipher, &key, n as u32, true, last.as_slice()) {
            Ok(p) => p,
            Err(e) => {
                proof {
                    if exists|cs2: u32| cs2 > 0 && #[trigger] be32(cs2) == store@.subrange(5, 9)
                        && (store@.len() - HEADER_LEN) % (cs2 + OVERHEAD) < OVERHEAD {
                        let cs2 = choose|cs2: u32| cs2 > 0 && #[trigger] be32(cs2) == store@.subrange(5, 9)
                            && (store@.len() - HEADER_LEN) % (cs2 + OVERHEAD) < OVERHEAD;
                        assert(store@.subrange(5, 9) =~= be32(header.chunk_size));
                        lemma_be32_injective(cs2, header.chunk_size);
                        assert(rem as int == (store@.len() - HEADER_LEN) % (cs2 + OVERHEAD));
                    }
                    if exists|cs2: u32, c: Seq<u8>| stream_holds(cipher, key@, cs2, store@, c) {
                        let (cs2, c) = choose|cs2: u32, c: Seq<u8>| stream_holds(cipher, key@, cs2, store@, c);
                        assert(store@.subrange(5, 9) =~= be32(header.chunk_size));
                        lemma_be32_injective(cs2, header.chunk_size);
                        lemma_holds_shape(cipher, key@, cs2, store@, c, n as int, rem as int);
                    }
                }
                return Err(e);
            },
        };
        proof {
            assert(n * cs <= n * phys) by (nonlinear_arith)
                requires
                    cs <= phys,
                    n >= 0,
            ;
        }
        let len = n * cs + (rem - OVERHEAD as u64);
        let rd = Reader {
            cipher,
            key,
            store,
            chunk_size: header.chunk_size,
            full: n,
            len,
            pos: 0,
            cached: Some((n, plain)),
        };
        proof {
            assert(rd.store@.subrange(5, 9) =~= be32(header.chunk_size));
            if exists|cs2: u32| cs2 > 0 && #[trigger] be32(cs2) == rd.store@.subrange(5, 9)
                && (rd.store@.len() - HEADER_LEN) % (cs2 + OVERHEAD) < OVERHEAD {
                let cs2 = choose|cs2: u32| cs2 > 0 && #[trigger] be32(cs2) == rd.store@.subrange(5, 9)
                    && (rd.store@.len() - HEADER_LEN) % (cs2 + OVERHEAD) < OVERHEAD;
                lemma_be32_injective(cs2, header.chunk_size);
                assert(rem as int == (rd.store@.len() - HEADER_LEN) % (cs2 + OVERHEAD));
            }
        }
        Ok(rd)
    }

    /// Opens chunk `j` from the store.
    fn open_at(&self, j: u64) -> (r: Result<Vec<u8>, StreamError>)
        requires
            self.wf(),
            j <= self.full,
        ensures
            match self.opened(j as int) {
                Some(p) => r matches Ok(q) && q@ == p,
                None => r == Err::<Vec<u8>, StreamError>(StreamError::Integrity),
            },
            r matches Ok(q) ==> q@.len() == if j < self.full { self.chunk_size as int } else { self.len - self.full * self.chunk_size },
    {
        let cs = self.chunk_size as u64;
        let phys = cs + OVERHEAD as u64;
        let ghost n = self.full as int;
        proof {
            if j < self.full {
                lemma_record_order(j as int, n, cs as int);
            }
            assert(j * phys <= n * phys) by (nonlinear_arith)
                requires
                    j <= n,
                    phys > 0,
            ;
            assert(record_start(cs as int, j as int) == HEADER_LEN + j * phys);
            assert(record_start(cs as int, n) == HEADER_LEN + n * phys);
            assert(HEADER_LEN + n * phys + OVERHEAD <= self.store@.len());
            assert(HEADER_LEN + j * phys <= self.store@.len());
        }
        let slen = self.store.len();
        let start = HEADER_LEN + (j * phys) as usize;
        if j < self.full {
            let rec = slice_to_vec(self.store.as_slice(), start, start + phys as usize);
            open_chunk(self.cipher, &self.key, j as u32, false, rec.as_slice())
        } else {
            let rec = slice_to_vec(self.store.as_slice(), start, slen);
            open_chunk(self.cipher, &self.key, j as u32, true, rec.as_slice())
        }
    }

    /// Reads up to `max` bytes at the cursor, up to the end of the chunk
    /// the cursor lies in, and moves the cursor past them; nothing at or
    /// past the end of the stream. `Integrity`, with the cursor unchanged,
    /// when that chunk does not verify: no byte of it is ever returned.
    #[verifier::rlimit(50)]
    pub fn read(&mut self, max: usize) -> (r: Result<Vec<u8>, StreamError>)
        requires
            old(self).wf(),
        ensures
            final(self).wf(),
            final(self).spec_len() == old(self).spec_len(),
            final(self).spec_cipher() == old(self).spec_cipher(),
            final(self).spec_key() == old(self).spec_key(),
            final(self).spec_chunk_size() == old(self).spec_chunk_size(),
            final(self).spec_store() == old(self).spec_store(),
            match r {
                Ok(d) => d@.len() == read_len(old(self).spec_pos(), old(self).spec_chunk_size(), old(self).spec_len(), max as int)
                    && final(self).spec_pos() == old(self).spec_pos() + d@.len()
                    && forall|c: Seq<u8>| old(self).holds(c) && d@.len() > 0 ==> d@ == c.subrange(old(self).spec_pos(), old(self).spec_pos() + d@.len()),
                Err(e) => e == StreamError::Integrity && final(self).spec_pos() == old(self).spec_pos(),
            },
            r is Err <==> (old(self).spec_pos() < old(self).spec_len() && max > 0
                && old(self).opened(old(self).spec_pos() / old(self).spec_chunk_size()) is None),
            (exists|c: Seq<u8>| old(self).holds(c)) ==> r is Ok,
            r matches Ok(d) ==> (d@.len() > 0 ==> final(self).cached_chunk() == Some(old(self).spec_pos() / old(self).spec_chunk_size())),
            r is Err ==> final(self).cached_chunk() == old(self).cached_chunk(),
            r matches Ok(d) ==> (d@.len() > 0 ==> (old(self).opened(old(self).spec_pos() / old(self).spec_chunk_size()) matches Some(p)
                && d@ == p.subrange(old(self).spec_pos() % old(self).spec_chunk_size(),
                    old(self).spec_pos() % old(self).spec_chunk_size() + d@.len()))),
    {
        if self.pos >= self.len || max == 0 {
            proof {
                lemma_div_mod(self.pos as int, self.chunk_size as int);
            }
            return Ok(Vec::new());
        }
        let cs = self.chunk_size as u64;
        let n = self.full;
        let j = self.pos / cs;
        let off = self.pos % cs;
        proof {
            lemma_div_mod(self.pos as int, cs as int);
            if j > n {
                assert(j * cs >= n * cs + cs) by (nonlinear_arith)
                    requires
                        j >= n + 1,
                        cs > 0,
                ;
            }
            assert((j + 1) * cs == j * cs + cs) by (nonlinear_arith);
        }
        let chunk_len = if j < n {
            cs
        } else {
            self.len - n * cs
        };
        proof {
            if j < n {
                assert((j + 1) * cs <= n * cs) by (nonlinear_arith)
                    requires
                        j + 1 <= n,
                        cs > 0,
                ;
            }
        }
        let avail = chunk_len - off;
        proof {
            assert(self.len - n * cs < cs);
            if j == n {
                assert(j * cs + cs > self.len);
            }
            assert(avail == if j * cs + cs < self.len { j * cs + cs } else { self.len as int } - self.pos);
        }
        let k: usize = if (max as u64) < avail {
            max
        } else {
            avail as usize
        };
        proof {
            if exists|c: Seq<u8>| self.holds(c) {
                let c = choose|c: Seq<u8>| self.holds(c);
                lemma_holds_shape(self.cipher, self.key@, self.chunk_size, self.store@, c, n as int,
                    self.store@.len() - record_start(cs as int, n as int));
                if j < n {
                    assert(record_plain(self.cipher, self.key@, j as u32, false, stream_record(self.store@, cs as int, j as int)) == Some(chunk_of(c, cs as int, j as int)));
                }
            }
        }
        let hit = match &self.cached {
            Some(entry) => entry.0 == j,
            None => false,
        };
        if !hit {
            let p = self.open_at(j)?;
            self.cached = Some((j, p));
        }
        let d = match &self.cached {
            Some(entry) => slice_to_vec(entry.1.as_slice(), off as usize, off as usize + k),
            None => {
                assert(false);
                Vec::new()
            },
        };
        let ghost old_pos = self.pos as int;
        self.pos = self.pos + k as u64;
        assert forall|c: Seq<u8>| old(self).holds(c) && d@.len() > 0 implies d@ == c.subrange(old(self).spec_pos(), old(self).spec_pos() + d@.len()) by {
            assert(old(self).spec_pos() == old_pos);
            assert(self.holds(c));
            lemma_holds_shape(self.cipher, self.key@, self.chunk_size, self.store@, c, n as int,
                self.store@.len() - record_start(cs as int, n as int));
            if j < n {
                assert(record_plain(self.cipher, self.key@, j as u32, false, stream_record(self.store@, cs as int, j as int)) == Some(chunk_of(c, cs as int, j as int)));
            }
            assert(d@ =~= c.subrange(old_pos, old_pos + k));
        }
        Ok(d)
    }

    pub fn position(&self) -> (r: u64)
        ensures
            r == self.spec_pos(),
    {
        self.pos
    }

    /// Length of the plaintext that the store holds.
    pub fn len(&self) -> (r: u64)
        requires
            self.wf(),
        ensures
            r == self.spec_len(),
            forall|c: Seq<u8>| self.holds(c) ==> r == c.len(),
    {
        proof {
            assert forall|c: Seq<u8>| self.holds(c) implies self.len == c.len() by {
                lemma_holds_shape(self.cipher, self.key@, self.chunk_size, self.store@, c, self.full as int,
                    self.store@.len() - record_start(self.chunk_size as int, self.full as int));
            }
        }
        self.len
    }

    /// Moves the cursor; a position past the end is allowed, and reads
    /// there return nothing. Nothing is opened until the next read.
    pub fn seek(&mut self, to: u64) -> (r: u64)
        requires
            old(self).wf(),
        ensures
            final(self).wf(),
            r == to,
            final(self).spec_pos() == to,
            final(self).spec_len() == old(self).spec_len(),
            final(self).spec_cipher() == old(self).spec_cipher(),
            final(self).spec_key() == old(self).spec_key(),
            final(self).spec_chunk_size() == old(self).spec_chunk_size(),
            final(self).spec_store() == old(self).spec_store(),
            forall|j: int| final(self).opened(j) == old(self).opened(j),
    {
        self.pos = to;
        to
    }
}

} // verus!

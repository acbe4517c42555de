use vstd::prelude::*;
use rand::RngCore;
use crate::codec::slice_to_vec;
use crate::error::StreamError;

verus! {

/// Relies on `RngCore::fill_bytes` of `rand::thread_rng()`: it overwrites
/// every byte of the buffer and keeps its length.
#[verifier::external_body]
fn random_bytes(len: usize) -> (r: Vec<u8>)
    ensures
        r@.len() == len,
{
    let mut buf = vec![0u8; len];
    rand::thread_rng().fill_bytes(&mut buf);
    buf
}

/// A position to seek to, as `std::io::SeekFrom` gives it.
#[derive(Clone, Copy, Debug, PartialEq, Eq, Structural)]
pub enum SeekFrom {
    Start(u64),
    End(i64),
    Current(i64),
}

/// The absolute position a seek asks for, before bounds are checked.
pub open spec fn seek_target(to: SeekFrom, len: int, pos: int) -> int {
    match to {
        SeekFrom::Start(p) => p as int,
        SeekFrom::End(d) => len + d,
        SeekFrom::Current(d) => pos + d,
    }
}

/// Resolves a seek against a stream of `len` bytes with its cursor at
/// `pos`: `Bounds` for a target before the start or beyond `u64`.
pub fn resolve_seek(to: SeekFrom, len: u64, pos: u64) -> (r: Result<u64, StreamError>)
    ensures
        0 <= seek_target(to, len as int, pos as int) <= u64::MAX ==> r == Ok::<u64, StreamError>(seek_target(to, len as int, pos as int) as u64),
        !(0 <= seek_target(to, len as int, pos as int) <= u64::MAX) ==> r == Err::<u64, StreamError>(StreamError::Bounds),
{
    let target: i128 = match to {
        SeekFrom::Start(p) => p as i128,
        SeekFrom::End(d) => len as i128 + d as i128,
        SeekFrom::Current(d) => pos as i128 + d as i128,
    };
    if target < 0 || target > u64::MAX as i128 {
        return Err(StreamError::Bounds);
    }
    Ok(target as u64)
}

/// An in-memory source of random plaintext with a cursor, to feed writers.
pub struct RandomReader {
    buf: Vec<u8>,
    pos: usize,
}

impl RandomReader {
    pub closed spec fn data(&self) -> Seq<u8> {
        self.buf@
    }

    pub closed spec fn spec_pos(&self) -> nat {
        self.pos as nat
    }

    /// `len` random bytes, with the cursor at the start.
    pub fn new(len: usize) -> (r: RandomReader)
        ensures
            r.data().len() == len,
            r.spec_pos() == 0,
    {
        RandomReader { buf: random_bytes(len), pos: 0 }
    }

    /// The same bytes, with the cursor at the start.
    pub fn clone(&self) -> (r: RandomReader)
        ensures
            r.data() == self.data(),
            r.spec_pos() == 0,
    {
        RandomReader { buf: slice_to_vec(self.buf.as_slice(), 0, self.buf.len()), pos: 0 }
    }

    pub fn bytes(&self) -> (r: &Vec<u8>)
        ensures
            r@ == self.data(),
    {
        &self.buf
    }

    /// Up to `max` bytes from the cursor on; nothing at or past the end.
    pub fn read(&mut self, max: usize) -> (r: Vec<u8>)
        ensures
            final(self).data() == old(self).data(),
            (old(self).spec_pos() as int) >= old(self).data().len() ==> r@.len() == 0 && (final(self).spec_pos() as int) == (old(self).spec_pos() as int),
            (old(self).spec_pos() as int) < old(self).data().len() ==> r@ == old(self).data().subrange((old(self).spec_pos() as int),
                (old(self).spec_pos() as int) + if max < old(self).data().len() - (old(self).spec_pos() as int) { max as int } else { old(self).data().len() - (old(self).spec_pos() as int) })
                && (final(self).spec_pos() as int) == (old(self).spec_pos() as int) + r@.len(),
    {
        if self.pos >= self.buf.len() {
            return Vec::new();
        }
        let rest = self.buf.len() - self.pos;
        let n = if max < rest {
            max
        } else {
            rest
        };
        let r = slice_to_vec(self.buf.as_slice(), self.pos, self.pos + n);
        self.pos = self.pos + n;
        r
    }

    /// Moves the cursor; `Bounds`, with the cursor unchanged, for a target
    /// before the start or past the end.
    pub fn seek(&mut self, to: SeekFrom) -> (r: Result<u64, StreamError>)
        ensures
            final(self).data() == old(self).data(),
            (0 <= seek_target(to, old(self).data().len() as int, (old(self).spec_pos() as int)) <= old(self).data().len()) ==> (r
                == Ok::<u64, StreamError>(seek_target(to, old(self).data().len() as int, (old(self).spec_pos() as int)) as u64)
                && (final(self).spec_pos() as int) == seek_target(to, old(self).data().len() as int, (old(self).spec_pos() as int))),
            !(0 <= seek_target(to, old(self).data().len() as int, (old(self).spec_pos() as int)) <= old(self).data().len()) ==> (r
                == Err::<u64, StreamError>(StreamError::Bounds) && (final(self).spec_pos() as int) == (old(self).spec_pos() as int)),
    {
        let len = self.buf.len() as i128;
        let target: i128 = match to {
            SeekFrom::Start(p) => p as i128,
            SeekFrom::End(d) => len + d as i128,
            SeekFrom::Current(d) => self.pos as i128 + d as i128,
        };
        if target < 0 || target > len {
            return Err(StreamError::Bounds);
        }
        self.pos = target as usize;
        Ok(target as u64)
    }
}

} // verus!

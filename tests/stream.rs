use chunkcrypt::cipher::Cipher;
use chunkcrypt::codec::{decode_header, encode_header, make_nonce, seal_chunk, open_chunk, record_offset, Header, HEADER_LEN, OVERHEAD};
use chunkcrypt::error::StreamError;
use chunkcrypt::key::SecretKey;
use chunkcrypt::reader::Reader;
use chunkcrypt::source::{resolve_seek, RandomReader, SeekFrom};
use chunkcrypt::writer::Writer;

fn key() -> SecretKey {
    SecretKey::new((0u8..32).collect())
}

fn pattern(len: usize) -> Vec<u8> {
    (0..len).map(|i| (i * 31 + 7) as u8).collect()
}

fn seal_all(cipher: Cipher, chunk_size: u32, data: &[u8]) -> Vec<u8> {
    let mut w = Writer::new(cipher, key(), chunk_size, 0x0102_0304).unwrap();
    w.write_all(data).unwrap();
    w.finish()
}

fn read_all(r: &mut Reader) -> Result<Vec<u8>, StreamError> {
    let mut out = Vec::new();
    loop {
        let d = r.read(1000)?;
        if d.is_empty() {
            return Ok(out);
        }
        out.extend_from_slice(&d);
    }
}

fn read_range(r: &mut Reader, from: u64, len: usize) -> Vec<u8> {
    r.seek(from);
    let mut out = Vec::new();
    while out.len() < len {
        let d = r.read(len - out.len()).unwrap();
        assert!(!d.is_empty());
        out.extend_from_slice(&d);
    }
    out
}

#[test]
fn round_trip_all_lengths_both_ciphers() {
    let cs = 16u32;
    for cipher in [Cipher::ChaCha20Poly1305, Cipher::Aes256Gcm] {
        for len in [0usize, 1, 15, 16, 17, 32, 100] {
            let data = pattern(len);
            let store = seal_all(cipher, cs, &data);
            let full = len / 16;
            assert_eq!(store.len(), HEADER_LEN + full * (16 + OVERHEAD) + OVERHEAD + len % 16);
            let mut r = Reader::open(store, cipher, key()).unwrap();
            assert_eq!(r.len(), len as u64);
            assert_eq!(read_all(&mut r).unwrap(), data);
        }
    }
}

#[test]
fn ciphertext_hides_plaintext() {
    let data = vec![0u8; 64];
    let store = seal_all(Cipher::ChaCha20Poly1305, 64, &data);
    let store2 = seal_all(Cipher::Aes256Gcm, 64, &data);
    let body = &store[HEADER_LEN + 12..HEADER_LEN + 12 + 64];
    assert_ne!(body, &data[..]);
    assert_ne!(body, &store2[HEADER_LEN + 12..HEADER_LEN + 12 + 64]);
}

#[test]
fn nonces_are_distinct() {
    let mut seen = Vec::new();
    for salt in [0u32, 1, 0xffff_ffff] {
        for index in [0u32, 1, 2] {
            for version in [0u32, 1, 7] {
                let n = make_nonce(salt, index, version);
                assert_eq!(n.len(), 12);
                assert!(!seen.contains(&n));
                seen.push(n);
            }
        }
    }
    assert_eq!(make_nonce(0x0a0b0c0d, 1, 2), vec![10, 11, 12, 13, 0, 0, 0, 1, 0, 0, 0, 2]);
}

#[test]
fn streams_under_one_key_use_different_salts() {
    let mut a = Writer::create(Cipher::ChaCha20Poly1305, key(), 8).unwrap();
    let mut b = Writer::create(Cipher::ChaCha20Poly1305, key(), 8).unwrap();
    a.write_all(&pattern(8)).unwrap();
    b.write_all(&pattern(8)).unwrap();
    let sa = a.finish();
    let sb = b.finish();
    assert_ne!(&sa[1..5], &sb[1..5]);
    assert_ne!(&sa[HEADER_LEN..HEADER_LEN + 12], &sb[HEADER_LEN..HEADER_LEN + 12]);
}

#[test]
fn overwrite_reseals_with_next_version() {
    let mut w = Writer::new(Cipher::Aes256Gcm, key(), 8, 5).unwrap();
    w.write_all(&pattern(20)).unwrap();
    let before = w.flushed();
    w.seek(3).unwrap();
    w.write_all(&[9, 9]).unwrap();
    let after = w.flushed();
    let v = HEADER_LEN + 8;
    assert_eq!(&before[v..v + 4], &[0, 0, 0, 0]);
    assert_eq!(&after[v..v + 4], &[0, 0, 0, 1]);
    assert_ne!(&before[HEADER_LEN..HEADER_LEN + 12], &after[HEADER_LEN..HEADER_LEN + 12]);
}

#[test]
fn every_flipped_bit_is_detected() {
    for cipher in [Cipher::ChaCha20Poly1305, Cipher::Aes256Gcm] {
        let data = pattern(20);
        let store = seal_all(cipher, 8, &data);
        for byte in HEADER_LEN + 12..HEADER_LEN + 8 + OVERHEAD {
            for bit in 0..8 {
                let mut bad = store.clone();
                bad[byte] ^= 1 << bit;
                let mut r = Reader::open(bad, cipher, key()).unwrap();
                assert_eq!(r.read(100), Err(StreamError::Integrity));
                assert_eq!(r.position(), 0);
            }
        }
        let last = store.len() - 1;
        let mut bad = store.clone();
        bad[last] ^= 0x80;
        assert!(matches!(Reader::open(bad, cipher, key()), Err(StreamError::Integrity)));
    }
}

#[test]
fn reordered_chunks_are_detected() {
    let store = seal_all(Cipher::ChaCha20Poly1305, 8, &pattern(16));
    let rec = 8 + OVERHEAD;
    let mut swapped = store.clone();
    let (a, b) = (HEADER_LEN, HEADER_LEN + rec);
    for i in 0..rec {
        swapped.swap(a + i, b + i);
    }
    let mut r = Reader::open(swapped, Cipher::ChaCha20Poly1305, key()).unwrap();
    assert_eq!(r.read(8), Err(StreamError::Integrity));
}

#[test]
fn partial_overwrite_blends() {
    let data = pattern(50);
    let mut w = Writer::new(Cipher::ChaCha20Poly1305, key(), 16, 1).unwrap();
    w.write_all(&data).unwrap();
    w.seek(10).unwrap();
    w.write_all(&[0xaa; 12]).unwrap();
    assert_eq!(w.position(), 22);
    w.seek(50).unwrap();
    w.write_all(&[1, 2, 3]).unwrap();
    let store = w.finish();
    let mut expected = data.clone();
    for b in &mut expected[10..22] {
        *b = 0xaa;
    }
    expected.extend_from_slice(&[1, 2, 3]);
    let mut r = Reader::open(store, Cipher::ChaCha20Poly1305, key()).unwrap();
    assert_eq!(read_all(&mut r).unwrap(), expected);
}

#[test]
fn overwrite_inside_tail_and_past_end() {
    let mut w = Writer::new(Cipher::Aes256Gcm, key(), 8, 1).unwrap();
    w.write_all(&[1, 2, 3, 4, 5]).unwrap();
    w.seek(3).unwrap();
    w.write_all(&[7, 7, 7, 7, 7, 7, 7]).unwrap();
    assert_eq!(w.len(), 10);
    let store = w.finish();
    let mut r = Reader::open(store, Cipher::Aes256Gcm, key()).unwrap();
    assert_eq!(read_all(&mut r).unwrap(), vec![1, 2, 3, 7, 7, 7, 7, 7, 7, 7]);
}

#[test]
fn write_stops_at_chunk_end() {
    let mut w = Writer::new(Cipher::ChaCha20Poly1305, key(), 8, 1).unwrap();
    assert_eq!(w.chunk_to_load(), None);
    assert_eq!(w.write(&pattern(20), &[]), Ok(8));
    assert_eq!(w.write(&pattern(3), &[]), Ok(3));
    assert_eq!(w.write(&pattern(20), &[]), Ok(5));
    assert_eq!(w.write(&[], &[]), Ok(0));
    assert_eq!(w.len(), 16);
}

#[test]
fn random_access_matches_slice() {
    let data = pattern(300);
    let store = seal_all(Cipher::Aes256Gcm, 32, &data);
    for (from, len) in [(0usize, 300usize), (5, 1), (31, 2), (64, 64), (100, 150), (299, 1)] {
        let mut r = Reader::open(store.clone(), Cipher::Aes256Gcm, key()).unwrap();
        assert_eq!(read_range(&mut r, from as u64, len), data[from..from + len].to_vec());
    }
}

#[test]
fn read_past_end_is_empty() {
    let store = seal_all(Cipher::ChaCha20Poly1305, 8, &pattern(10));
    let mut r = Reader::open(store, Cipher::ChaCha20Poly1305, key()).unwrap();
    assert_eq!(r.seek(1000), 1000);
    assert_eq!(r.read(10), Ok(vec![]));
    r.seek(2);
    assert_eq!(r.read(100).unwrap(), pattern(10)[2..8].to_vec());
    assert_eq!(r.read(0), Ok(vec![]));
}

#[test]
fn unfinished_stream_is_refused() {
    let mut w = Writer::new(Cipher::ChaCha20Poly1305, key(), 8, 1).unwrap();
    w.write_all(&pattern(24)).unwrap();
    let partial = w.flushed();
    assert_eq!(partial.len(), HEADER_LEN + 3 * (8 + OVERHEAD));
    assert!(matches!(Reader::open(partial, Cipher::ChaCha20Poly1305, key()), Err(StreamError::TruncatedStream)));
    let store = w.finish();
    let cut = store[..store.len() - OVERHEAD].to_vec();
    assert!(Reader::open(cut, Cipher::ChaCha20Poly1305, key()).is_err());
}

#[test]
fn configuration_errors() {
    assert!(matches!(Writer::new(Cipher::Aes256Gcm, SecretKey::new(vec![1; 16]), 8, 0), Err(StreamError::Configuration)));
    assert!(matches!(Writer::new(Cipher::Aes256Gcm, key(), 0, 0), Err(StreamError::Configuration)));
    let store = seal_all(Cipher::Aes256Gcm, 8, &pattern(3));
    assert!(matches!(Reader::open(store.clone(), Cipher::ChaCha20Poly1305, key()), Err(StreamError::Configuration)));
    assert!(matches!(Reader::open(store.clone(), Cipher::Aes256Gcm, SecretKey::new(vec![0; 31])), Err(StreamError::Configuration)));
    let mut other = (1u8..33).collect::<Vec<u8>>();
    other[0] = 99;
    assert!(matches!(Reader::open(store, Cipher::Aes256Gcm, SecretKey::new(other)), Err(StreamError::Integrity)));
    assert!(matches!(Reader::open(vec![1, 0, 0], Cipher::ChaCha20Poly1305, key()), Err(StreamError::TruncatedStream)));
    assert!(matches!(Reader::open(vec![1, 0, 0, 0, 0, 0, 0, 0, 0], Cipher::ChaCha20Poly1305, key()), Err(StreamError::Configuration)));
    assert!(matches!(Reader::open(vec![3, 0, 0, 0, 0, 0, 0, 0, 8], Cipher::ChaCha20Poly1305, key()), Err(StreamError::Configuration)));
}

#[test]
fn writer_seek_past_end_is_out_of_bounds() {
    let mut w = Writer::new(Cipher::ChaCha20Poly1305, key(), 8, 1).unwrap();
    w.write_all(&pattern(5)).unwrap();
    assert_eq!(w.seek(6), Err(StreamError::Bounds));
    assert_eq!(w.position(), 5);
    assert_eq!(w.seek(5), Ok(5));
    assert_eq!(w.seek(0), Ok(0));
}

#[test]
fn header_round_trip() {
    let h = Header { cipher: Cipher::Aes256Gcm, salt: 0xdead_beef, chunk_size: 262_144 };
    let b = encode_header(h);
    assert_eq!(b, vec![2, 0xde, 0xad, 0xbe, 0xef, 0, 4, 0, 0]);
    assert_eq!(decode_header(&b), Ok(h));
    assert_eq!(Cipher::from_id(1), Some(Cipher::ChaCha20Poly1305));
    assert_eq!(Cipher::from_id(0), None);
    assert_eq!(Cipher::Aes256Gcm.key_len(), 32);
    assert_eq!(Cipher::ChaCha20Poly1305.nonce_len(), 12);
    assert_eq!(Cipher::ChaCha20Poly1305.tag_len(), 16);
}

#[test]
fn chunk_seal_and_open() {
    let k = key();
    let rec = seal_chunk(Cipher::ChaCha20Poly1305, &k, 1, 4, 0, false, b"hello");
    assert_eq!(rec.len(), 5 + OVERHEAD);
    assert_eq!(open_chunk(Cipher::ChaCha20Poly1305, &k, 4, false, &rec), Ok(b"hello".to_vec()));
    assert_eq!(open_chunk(Cipher::ChaCha20Poly1305, &k, 5, false, &rec), Err(StreamError::Integrity));
    assert_eq!(open_chunk(Cipher::ChaCha20Poly1305, &k, 4, true, &rec), Err(StreamError::Integrity));
    assert_eq!(open_chunk(Cipher::Aes256Gcm, &k, 4, false, &rec), Err(StreamError::Integrity));
    assert_eq!(open_chunk(Cipher::ChaCha20Poly1305, &k, 4, false, &rec[..10]), Err(StreamError::TruncatedStream));
}

#[test]
fn error_descriptions() {
    for e in [StreamError::Configuration, StreamError::Integrity, StreamError::TruncatedStream, StreamError::Bounds, StreamError::NonceExhausted] {
        assert!(!e.describe().is_empty());
    }
    assert_eq!(StreamError::Integrity.describe(), "integrity check failed");
    assert_eq!(StreamError::TruncatedStream.describe(), "truncated stream");
}

#[test]
fn random_reader_reads_and_seeks() {
    let mut r = RandomReader::new(100);
    assert_eq!(r.bytes().len(), 100);
    let all = r.bytes().clone();
    assert_eq!(r.read(40), all[..40].to_vec());
    assert_eq!(r.seek(SeekFrom::Current(-10)), Ok(30));
    assert_eq!(r.read(5), all[30..35].to_vec());
    assert_eq!(r.seek(SeekFrom::End(-1)), Ok(99));
    assert_eq!(r.read(10), all[99..].to_vec());
    assert_eq!(r.read(10), Vec::<u8>::new());
    assert_eq!(r.seek(SeekFrom::Start(101)), Err(StreamError::Bounds));
    assert_eq!(r.seek(SeekFrom::Current(-200)), Err(StreamError::Bounds));
    let mut c = r.clone();
    assert_eq!(c.read(100), all);
}

#[test]
fn ten_mib_scenario() {
    let len = 10 * 1024 * 1024;
    let mut src = RandomReader::new(len);
    let mut w = Writer::create(Cipher::ChaCha20Poly1305, key(), 256 * 1024).unwrap();
    loop {
        let d = src.read(1 << 20);
        if d.is_empty() {
            break;
        }
        w.write_all(&d).unwrap();
    }
    let original = src.bytes().clone();
    let store = w.finish();
    let mut r = Reader::open(store, Cipher::ChaCha20Poly1305, key()).unwrap();
    let mut out = Vec::with_capacity(len);
    loop {
        let d = r.read(1 << 20).unwrap();
        if d.is_empty() {
            break;
        }
        out.extend_from_slice(&d);
    }
    assert!(out == original);
    assert!(read_range(&mut r, 5_000_000, 100) == original[5_000_000..5_000_100].to_vec());
}

#[test]
fn seek_resolution() {
    assert_eq!(resolve_seek(SeekFrom::Start(7), 10, 3), Ok(7));
    assert_eq!(resolve_seek(SeekFrom::End(-4), 10, 3), Ok(6));
    assert_eq!(resolve_seek(SeekFrom::Current(5), 10, 3), Ok(8));
    assert_eq!(resolve_seek(SeekFrom::Current(-4), 10, 3), Err(StreamError::Bounds));
    assert_eq!(resolve_seek(SeekFrom::End(i64::MAX), u64::MAX, 0), Err(StreamError::Bounds));
}

#[test]
fn finished_stream_layout() {
    let mut w = Writer::new(Cipher::ChaCha20Poly1305, key(), 8, 0x0a0b_0c0d).unwrap();
    w.write_all(&pattern(20)).unwrap();
    w.seek(9).unwrap();
    w.write_all(&[1]).unwrap();
    assert_eq!(w.sealed_count(), 2);
    assert_eq!(w.chunk_size(), 8);
    let r1 = w.sealed_record(1).clone();
    let store = w.finish();
    assert_eq!(&store[..HEADER_LEN], &[1, 10, 11, 12, 13, 0, 0, 0, 8]);
    assert_eq!(record_offset(8, 1), (HEADER_LEN + 36) as u64);
    let at = record_offset(8, 1) as usize;
    assert_eq!(&store[at..at + 36], &r1[..]);
    assert_eq!(&store[at..at + 12], &[10, 11, 12, 13, 0, 0, 0, 1, 0, 0, 0, 1]);
    let last = record_offset(8, 2) as usize;
    assert_eq!(&store[last..last + 12], &[10, 11, 12, 13, 0, 0, 0, 2, 0, 0, 0, 0]);
}

#[test]
fn intact_chunks_read_back_after_tampering() {
    let data = pattern(24);
    let mut store = seal_all(Cipher::Aes256Gcm, 8, &data);
    store[HEADER_LEN + 36 + 15] ^= 4;
    let mut r = Reader::open(store, Cipher::Aes256Gcm, key()).unwrap();
    assert_eq!(r.read(8), Ok(data[..8].to_vec()));
    assert_eq!(r.read(8), Err(StreamError::Integrity));
    assert_eq!(r.position(), 8);
    r.seek(16);
    assert_eq!(r.read(8), Ok(data[16..].to_vec()));
}

#[test]
fn sealed_write_checks_stored_record() {
    let mut w = Writer::new(Cipher::ChaCha20Poly1305, key(), 8, 3).unwrap();
    assert_eq!(w.salt(), 3);
    w.write_all(&pattern(20)).unwrap();
    w.seek(10).unwrap();
    assert_eq!(w.chunk_to_load(), Some(1));
    let good = w.sealed_record(1).clone();
    let mut bad = good.clone();
    bad[20] ^= 1;
    assert_eq!(w.write(&[5], &bad), Err(StreamError::Integrity));
    assert_eq!(w.write(&[5], &good[..30]), Err(StreamError::TruncatedStream));
    assert_eq!(w.position(), 10);
    let other = w.sealed_record(0).clone();
    assert_eq!(w.write(&[5], &other), Err(StreamError::Integrity));
    assert_eq!(w.write(&[5, 6, 7, 8, 9, 9, 9], &good), Ok(6));
    assert_eq!(w.position(), 16);
    let store = w.finish();
    let mut expected = pattern(20);
    expected[10..16].copy_from_slice(&[5, 6, 7, 8, 9, 9]);
    let mut r = Reader::open(store, Cipher::ChaCha20Poly1305, key()).unwrap();
    assert_eq!(read_all(&mut r).unwrap(), expected);
}

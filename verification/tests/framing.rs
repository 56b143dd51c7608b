use filele::entry::{decode_entry, encode_entry, Entry, EntryKind, EntryStep};
use filele::messages::{
    answer_hello, decode_ack, decode_chunk_head, decode_handshake, decode_hash, decode_reply,
    encode_accept, encode_ack, encode_chunk, encode_end, encode_handshake, encode_hello,
    encode_reject, AckOutcome, ChunkStep, Handshake, HandshakeStep, ReplyStep,
};
use filele::path::{rel_to_wire, wire_to_path, PathError};
use filele::protocol::{data_port, is_incompressible, MAGIC, MAX_INLINE};
use filele::wire::{
    read_u16, read_u32, read_u64, read_u8, write_u16, write_u32, write_u64, write_u8,
};

#[test]
fn integers_are_little_endian() {
    let mut v: Vec<u8> = Vec::new();
    write_u8(&mut v, 0xAB);
    write_u16(&mut v, 0x0102);
    write_u32(&mut v, 0x0304_0506);
    write_u64(&mut v, 0x0708_090A_0B0C_0D0E);
    assert_eq!(
        v,
        vec![0xAB, 2, 1, 6, 5, 4, 3, 0x0E, 0x0D, 0x0C, 0x0B, 0x0A, 9, 8, 7]
    );
    assert_eq!(read_u8(&v, 0), Some(0xAB));
    assert_eq!(read_u16(&v, 1), Some(0x0102));
    assert_eq!(read_u32(&v, 3), Some(0x0304_0506));
    assert_eq!(read_u64(&v, 7), Some(0x0708_090A_0B0C_0D0E));
}

#[test]
fn integers_past_the_end_are_not_read() {
    let v: Vec<u8> = vec![1, 2, 3];
    assert_eq!(read_u8(&v, 3), None);
    assert_eq!(read_u16(&v, 2), None);
    assert_eq!(read_u32(&v, 0), None);
    assert_eq!(read_u64(&v, usize::MAX), None);
}

#[test]
fn data_port_follows_the_control_port() {
    assert_eq!(data_port(53317), 53318);
    assert_eq!(data_port(65535), 0);
}

#[test]
fn magic_spells_flle() {
    assert_eq!(MAGIC.to_le_bytes(), *b"FLLE");
}

#[test]
fn packed_files_are_known_by_their_endings() {
    for p in ["a.zip", "A/B.MP4", "x.Jpeg", ".br", "disk.QCOW2", "a.7z"] {
        assert!(is_incompressible(p), "{}", p);
    }
    for p in ["a.txt", "zip", "a.zip.txt", "", "a.zipx", "photo.jpg "] {
        assert!(!is_incompressible(p), "{}", p);
    }
}

#[test]
fn backslashes_become_slashes() {
    assert_eq!(rel_to_wire("a\\b\\c.txt"), "a/b/c.txt");
    assert_eq!(rel_to_wire("plain"), "plain");
}

#[test]
fn wire_paths_lead_down() {
    assert_eq!(wire_to_path("a/b.txt"), Ok(vec!["a".to_string(), "b.txt".to_string()]));
    assert_eq!(wire_to_path("/a//./b/"), Ok(vec!["a".to_string(), "b".to_string()]));
    assert_eq!(wire_to_path("a/..b/..."), Ok(vec!["a".into(), "..b".into(), "...".into()]));
}

#[test]
fn wire_paths_that_climb_are_refused() {
    assert_eq!(wire_to_path("../x"), Err(PathError::Escape));
    assert_eq!(wire_to_path("a/../../x"), Err(PathError::Escape));
    assert_eq!(wire_to_path("a/.."), Err(PathError::Escape));
    assert_eq!(wire_to_path("..\\x"), Err(PathError::Escape));
    assert_eq!(wire_to_path("a\\..\\..\\x"), Err(PathError::Escape));
    assert_eq!(wire_to_path("a/C:/x"), Err(PathError::Escape));
    assert_eq!(wire_to_path("z:x"), Err(PathError::Escape));
    assert_eq!(wire_to_path("a\\b"), Ok(vec!["a".to_string(), "b".to_string()]));
    assert_eq!(wire_to_path("12:30"), Ok(vec!["12:30".to_string()]));
}

#[test]
fn wire_paths_of_bad_length_are_refused() {
    assert_eq!(wire_to_path(""), Err(PathError::BadLength));
    let long = "x".repeat(16 * 1024);
    assert!(wire_to_path(&long).is_ok());
    let longer = "x".repeat(16 * 1024 + 1);
    assert_eq!(wire_to_path(&longer), Err(PathError::BadLength));
    let wide = "\u{e9}".repeat(8 * 1024 + 1);
    assert_eq!(wire_to_path(&wide), Err(PathError::BadLength));
}

fn sample() -> Handshake {
    Handshake { flags: 6, token: 0x1122_3344_5566_7788, nstreams: 4, nfiles: 3, total: 70_000_000 }
}

#[test]
fn handshake_has_its_layout() {
    let b = encode_handshake(sample());
    assert_eq!(b.len(), 33);
    assert_eq!(&b[0..4], b"FLLE");
    assert_eq!(&b[4..8], &[1, 0, 6, 0]);
    assert_eq!(&b[8..16], &0x1122_3344_5566_7788u64.to_le_bytes());
    assert_eq!(b[16], 4);
    assert_eq!(&b[17..25], &3u64.to_le_bytes());
    assert_eq!(&b[25..33], &70_000_000u64.to_le_bytes());
}

#[test]
fn handshake_is_read_step_by_step() {
    let mut b = encode_handshake(sample());
    assert_eq!(decode_handshake(&b[..5]), HandshakeStep::Need(6));
    assert_eq!(decode_handshake(&b[..6]), HandshakeStep::Need(33));
    assert_eq!(decode_handshake(&b[..32]), HandshakeStep::Need(33));
    assert_eq!(decode_handshake(&b), HandshakeStep::Done(sample()));
    b.push(9);
    assert_eq!(decode_handshake(&b), HandshakeStep::Done(sample()));
}

#[test]
fn strangers_are_known_by_their_greeting() {
    let mut b = encode_handshake(sample());
    b[0] = b'X';
    assert_eq!(decode_handshake(&b[..6]), HandshakeStep::Mismatch);
    let mut c = encode_handshake(sample());
    c[4] = 2;
    assert_eq!(decode_handshake(&c[..6]), HandshakeStep::Mismatch);
    assert_eq!(decode_reply(&c[..6]), ReplyStep::Mismatch);
}

#[test]
fn replies_say_what_they_mean() {
    let yes = encode_accept(53318);
    assert_eq!(yes, vec![b'F', b'L', b'L', b'E', 1, 0, 0, 0x46, 0xD0]);
    assert_eq!(decode_reply(&yes), ReplyStep::Accepted(53318));
    assert_eq!(decode_reply(&yes[..3]), ReplyStep::Need(6));
    assert_eq!(decode_reply(&yes[..8]), ReplyStep::Need(9));
    let no = encode_reject();
    assert_eq!(no, vec![b'F', b'L', b'L', b'E', 1, 0, 1, 1, 0]);
    assert_eq!(decode_reply(&no), ReplyStep::Rejected(1));
}

#[test]
fn data_streams_need_the_token() {
    let hello = encode_hello(77);
    assert_eq!(hello.len(), 14);
    assert_eq!(answer_hello(&hello, 77), Some(0));
    assert_eq!(answer_hello(&hello, 78), Some(1));
    assert_eq!(answer_hello(&hello[..13], 77), None);
    let mut other = encode_hello(77);
    other[5] = 9;
    assert_eq!(answer_hello(&other, 77), Some(1));
}

#[test]
fn chunks_read_back() {
    let c = encode_chunk(5, 4_194_304, b"hello");
    assert_eq!(c.len(), 25);
    assert_eq!(
        decode_chunk_head(&c),
        ChunkStep::Head { file_idx: 5, offset: 4_194_304, len: 5 }
    );
    assert_eq!(&c[20..], b"hello");
    assert_eq!(decode_chunk_head(&c[..19]), ChunkStep::Need(20));
}

#[test]
fn chunks_of_bad_length_are_refused() {
    let empty = encode_chunk(1, 0, b"");
    assert_eq!(decode_chunk_head(&empty), ChunkStep::BadLen(0));
    let mut big = encode_chunk(1, 0, b"x");
    big[16..20].copy_from_slice(&(16 * 1024 * 1024u32 + 1).to_le_bytes());
    assert_eq!(decode_chunk_head(&big), ChunkStep::BadLen(16 * 1024 * 1024 + 1));
    big[16..20].copy_from_slice(&(16 * 1024 * 1024u32).to_le_bytes());
    assert_eq!(
        decode_chunk_head(&big),
        ChunkStep::Head { file_idx: 1, offset: 0, len: 16 * 1024 * 1024 }
    );
}

#[test]
fn end_carries_the_hashes() {
    let b = encode_end(&vec![(2, 20), (7, 70)]);
    assert_eq!(b.len(), 1 + 8 + 32);
    assert_eq!(b[0], 0xFF);
    assert_eq!(read_u64(&b, 1), Some(2));
    assert_eq!(decode_hash(&b[9..]), Some((2, 20)));
    assert_eq!(decode_hash(&b[25..]), Some((7, 70)));
    assert_eq!(decode_hash(&b[26..]), None);
    assert!(matches!(decode_entry(&b), EntryStep::End));
}

#[test]
fn ack_tells_success_from_failure() {
    assert_eq!(decode_ack(&encode_ack(0)), AckOutcome::Success);
    assert_eq!(decode_ack(&encode_ack(3)), AckOutcome::Mismatches(3));
    assert_eq!(decode_ack(&[]), AckOutcome::NoAnswer);
    assert_eq!(decode_ack(&[0]), AckOutcome::Mismatches(999));
    assert_eq!(decode_ack(&encode_ack(0)[..8]), AckOutcome::Mismatches(999));
    let mut odd = encode_ack(0);
    odd[0] = 1;
    assert_eq!(decode_ack(&odd), AckOutcome::Mismatches(0));
}

fn entry(kind: EntryKind, flags: u8, rel: &str, size: u64) -> Entry {
    Entry { kind, flags, rel: rel.to_string(), size, mtime: 1_700_000_000, mode: 0o644 }
}

fn reads_back(e: &Entry) {
    let b = encode_entry(e);
    for n in 0..b.len() {
        match decode_entry(&b[..n]) {
            EntryStep::Need(m) => assert!(n < m && m <= b.len()),
            other => panic!("{:?}", other),
        }
    }
    let mut longer = b.clone();
    longer.extend_from_slice(b"more");
    match decode_entry(&longer) {
        EntryStep::Header { entry, used } => {
            assert_eq!(used, b.len());
            assert_eq!(entry.kind, e.kind);
            assert_eq!(entry.flags, e.flags);
            assert_eq!(entry.rel, e.rel);
            assert_eq!((entry.size, entry.mtime, entry.mode), (e.size, e.mtime, e.mode));
        }
        other => panic!("{:?}", other),
    }
}

#[test]
fn headers_read_back() {
    reads_back(&entry(EntryKind::Dir, 0, "a/b", 0));
    reads_back(&entry(EntryKind::Inline { hash: 9, wire_len: 12 }, 0, "f\u{fc}r.txt", 12));
    reads_back(&entry(EntryKind::Inline { hash: 9, wire_len: 5 }, 1, "x", 12));
    reads_back(&entry(EntryKind::Sharded { nchunks: 17, csize: 4_194_304 }, 0, "big", 70_000_000));
}

#[test]
fn headers_have_their_layout() {
    let b = encode_entry(&entry(EntryKind::Inline { hash: 0x99, wire_len: 3 }, 1, "ab", 7));
    let mut want: Vec<u8> = vec![1, 1, 2, 0, b'a', b'b'];
    want.extend_from_slice(&7u64.to_le_bytes());
    want.extend_from_slice(&1_700_000_000u64.to_le_bytes());
    want.extend_from_slice(&0o644u32.to_le_bytes());
    want.extend_from_slice(&0x99u64.to_le_bytes());
    want.extend_from_slice(&3u64.to_le_bytes());
    assert_eq!(b, want);
}

#[test]
fn faulty_headers_are_named() {
    assert!(matches!(decode_entry(&[3]), EntryStep::Unknown(3)));
    assert!(matches!(decode_entry(&[0xFE]), EntryStep::Unknown(0xFE)));
    assert!(matches!(decode_entry(&[0, 0, 1, 0x40]), EntryStep::PathTooLong));
    assert!(matches!(decode_entry(&[0, 0, 0, 0x40]), EntryStep::Need(16388)));
    assert!(matches!(decode_entry(&[1, 0, 2, 0, 0xC3, 0x28]), EntryStep::BadUtf8));
    let big = entry(EntryKind::Inline { hash: 0, wire_len: MAX_INLINE + 1 }, 0, "x", MAX_INLINE + 1);
    assert!(matches!(decode_entry(&encode_entry(&big)), EntryStep::TooBig(n) if n == MAX_INLINE + 1));
    let fits = entry(EntryKind::Inline { hash: 0, wire_len: MAX_INLINE }, 0, "x", MAX_INLINE);
    assert!(matches!(decode_entry(&encode_entry(&fits)), EntryStep::Header { .. }));
}

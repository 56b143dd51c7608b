use filele::entry::{decode_entry, Entry, EntryKind, EntryStep};
use filele::jobs::Job;
use filele::messages::{
    encode_accept, encode_ack, encode_hello, encode_reject, encode_verdict, AckOutcome, Handshake,
    DENIED,
};
use filele::outside::can_unpack;
use filele::path::PathError;
use filele::progress::TransferUpdate;
use filele::receiver::{
    chunk_end, wait_step, ChunkPlace, FileError, FileHash, HashList, RecvSession, ShardPlace, WaitStep,
};
use filele::receiving::{
    DataAction, DataConn, DataEvent, DataFault, Receiving, RecvAction, RecvEvent, RecvFault,
};
use filele::sender::{
    encode_inline, first_failure, form_of, frame_inline, outline, outline_with, Form, SendOptions,
    SendSession, ShardStep,
};
use filele::sending::{SendAction, SendEvent, SendFault, Sending};
use std::collections::HashMap;

const MIB: u64 = 1024 * 1024;

fn job(id: usize, rel: &str, size: u64) -> Job {
    Job { id, rel: rel.to_string(), size, mtime: 1000 + id as u64, mode: 0o644, is_dir: false }
}

fn folder(id: usize, rel: &str) -> Job {
    Job { id, rel: rel.to_string(), size: 0, mtime: 7, mode: 0o755, is_dir: true }
}

fn options(streams: u8, compress: bool, checksum: bool, overwrite: bool) -> SendOptions {
    SendOptions {
        target: "10.0.0.2".to_string(),
        port: 53317,
        streams,
        compress,
        checksum,
        overwrite,
        sender_name: "me".to_string(),
    }
}

fn noise(len: usize, mut seed: u64) -> Vec<u8> {
    let mut v = Vec::with_capacity(len);
    while v.len() < len {
        seed ^= seed << 13;
        seed ^= seed >> 7;
        seed ^= seed << 17;
        v.extend_from_slice(&seed.to_le_bytes());
    }
    v.truncate(len);
    v
}

fn text(len: usize) -> Vec<u8> {
    b"the same words again and again; ".iter().cycle().take(len).copied().collect()
}

#[test]
fn outlines_say_what_is_sent() {
    let jobs = vec![folder(0, "d"), job(1, "d/a", 5), job(2, "d/b", 64 * MIB), job(3, "c", 65 * MIB)];
    let o = outline_with(&jobs, 129 * MIB + 5, &options(9, true, true, false), 42).unwrap();
    assert_eq!(
        o.handshake,
        Handshake { flags: 3, token: 42, nstreams: 8, nfiles: 4, total: 129 * MIB + 5 }
    );
    assert_eq!((o.num_files, o.num_large), (3, 2));
    let names: Vec<&str> = o.files.iter().map(|f| f.name.as_str()).collect();
    assert_eq!(names, vec!["d/a", "d/b", "c"]);
    let small = outline_with(&vec![job(1, "a", 64 * MIB - 1)], 5, &options(4, false, false, true), 1);
    let h = small.unwrap().handshake;
    assert_eq!((h.nstreams, h.flags), (0, 4));
    assert!(outline_with(&vec![], 0, &options(4, true, true, true), 1).is_none());
}

#[test]
fn tokens_differ_from_transfer_to_transfer() {
    let jobs = vec![job(1, "a", 1)];
    let a = outline(&jobs, 1, &options(4, false, true, true)).unwrap().handshake;
    let b = outline(&jobs, 1, &options(4, false, true, true)).unwrap().handshake;
    assert_ne!(a.token, b.token);
    assert!(outline(&vec![], 1, &options(4, false, true, true)).is_none());
}

#[test]
fn forms_depend_on_size_and_streams() {
    assert_eq!(form_of(&folder(0, "d"), 4), Form::Dir);
    assert_eq!(form_of(&job(0, "a", 64 * MIB - 1), 4), Form::Inline);
    assert_eq!(form_of(&job(0, "a", 64 * MIB), 4), Form::Sharded);
    assert_eq!(form_of(&job(0, "a", 64 * MIB), 0), Form::Inline);
}

fn split(frame: &[u8]) -> (Entry, Vec<u8>) {
    match decode_entry(frame) {
        EntryStep::Header { entry, used } => (entry, frame[used..].to_vec()),
        other => panic!("{:?}", other),
    }
}

#[test]
fn small_files_carry_their_hash() {
    let data = noise(2000, 5);
    let (e, payload) = split(&encode_inline(&job(1, "a.bin", 1), &data, false, true));
    assert_eq!(payload, data);
    assert_eq!(e.size, 2000);
    assert_eq!(
        e.kind,
        EntryKind::Inline { hash: xxhash_rust::xxh3::xxh3_64(&data), wire_len: 2000 }
    );
    let (plain, _) = split(&encode_inline(&job(1, "a.bin", 1), &data, false, false));
    assert_eq!(plain.kind, EntryKind::Inline { hash: 0, wire_len: 2000 });
}

#[test]
fn text_is_compressed_where_it_pays() {
    let data = text(5000);
    let (e, payload) = split(&encode_inline(&job(1, "a.txt", 1), &data, true, false));
    assert_eq!(e.flags, 1);
    assert!(payload.len() < data.len());
    assert_eq!(payload, lz4_flex::compress_prepend_size(&data));
    assert_eq!(e.kind, EntryKind::Inline { hash: 0, wire_len: payload.len() as u64 });
    for (name, bytes) in [
        ("a.zip", text(5000)),
        ("a.txt", text(1024)),
        ("a.txt", noise(5000, 9)),
        ("a.txt", text(8 * MIB as usize + 1)),
    ] {
        let (e, payload) = split(&encode_inline(&job(1, name, 1), &bytes, true, false));
        assert_eq!(e.flags, 0, "{}", name);
        assert_eq!(payload, bytes);
    }
    assert_eq!(split(&encode_inline(&job(1, "a.txt", 1), &text(1025), true, false)).0.flags, 1);
}

#[test]
fn blocks_are_used_only_where_they_are_shorter() {
    let j = job(1, "a", 1);
    assert_eq!(split(&frame_inline(&j, b"abc", 9, Some(b"xy".to_vec()))).1, b"xy");
    assert_eq!(split(&frame_inline(&j, b"abc", 9, Some(b"xyz".to_vec()))).1, b"abc");
    assert_eq!(split(&frame_inline(&j, b"abc", 9, None)).1, b"abc");
}

#[test]
fn chunks_go_round_the_streams() {
    let full = 4 * MIB as usize;
    let data = noise(7 * full + 5, 4);
    let mut s = SendSession::start(3, false, true, 1, 100);
    s.begin_shard(&job(0, "big", data.len() as u64));
    let mut workers = Vec::new();
    let mut sent: Vec<u8> = Vec::new();
    let mut at = 0;
    let mut room = full;
    loop {
        // Reads are shorter than what is asked for, as they may be.
        let end = (at + room.min(1_500_000)).min(data.len());
        match s.on_read(&data[at..end]) {
            ShardStep::Chunk { worker, frame, update } => {
                workers.push(worker);
                assert_eq!(&frame[8..16], &(sent.len() as u64).to_le_bytes());
                assert!(frame.len() == 20 + full || sent.len() == 7 * full);
                sent.extend_from_slice(&frame[20..]);
                assert_eq!(update.file_sent, Some(sent.len() as u64));
                room = full;
            }
            ShardStep::More(n) => room = n,
            ShardStep::Finished => break,
        }
        at = end;
    }
    assert_eq!(workers, vec![0, 1, 2, 0, 1, 2, 0, 1]);
    assert!(sent == data);
    assert_eq!(s.hashes, vec![(0, xxhash_rust::xxh3::xxh3_64(&data))]);
    assert_eq!(s.sent, data.len() as u64);
}

#[test]
fn reads_are_gathered_to_chunks() {
    let mut s = SendSession::start(1, false, false, 1, 100);
    s.begin_shard(&job(0, "big", 70 * MIB));
    match s.on_read(&[1, 2, 3]) {
        ShardStep::More(n) => assert_eq!(n as u64, 4 * MIB - 3),
        other => panic!("{:?}", other),
    }
    match s.on_read(&[]) {
        ShardStep::Chunk { frame, .. } => assert_eq!(&frame[16..], &[3, 0, 0, 0, 1, 2, 3]),
        other => panic!("{:?}", other),
    }
    assert!(matches!(s.on_read(&[]), ShardStep::Finished));
    assert_eq!(s.hashes, vec![(0, 0)]);
}

#[test]
fn the_first_failure_is_found() {
    assert_eq!(first_failure(&vec![false, true, true]), Some(1));
    assert_eq!(first_failure(&vec![false]), None);
}

fn session(flags: u16, overwrite: bool) -> RecvSession {
    RecvSession::start(&Handshake { flags, token: 1, nstreams: 0, nfiles: 1, total: 10 }, overwrite)
}

fn inline(rel: &str, flags: u8, size: u64, hash: u64, wire_len: u64) -> Entry {
    Entry {
        kind: EntryKind::Inline { hash, wire_len },
        flags,
        rel: rel.to_string(),
        size,
        mtime: 0,
        mode: 0,
    }
}

#[test]
fn flags_reach_the_receiver() {
    let s = session(2, false);
    assert!(s.checksum && !s.overwrite);
    assert!(session(4, false).overwrite && session(0, true).overwrite);
    assert!(!session(1, false).checksum);
}

#[test]
fn files_are_counted_and_placed() {
    let mut s = session(2, false);
    let data = b"hello".to_vec();
    let hash = xxhash_rust::xxh3::xxh3_64(&data);
    let a = s.on_payload(&inline("a/b.txt", 0, 5, hash, 5), data.clone()).unwrap();
    assert_eq!(a.dest, vec!["a", "b.txt"]);
    assert_eq!(a.content, data);
    assert!(a.pipelined && a.mtime.is_none());
    assert_eq!((a.update.sent_bytes, a.update.total_bytes), (5, 10));
    assert_eq!(a.update.label, "a/b.txt");
    assert_eq!((s.idx, s.sent, s.mismatches), (1, 5, 0));
}

#[test]
fn wrong_hashes_and_lengths_are_mismatches() {
    let mut s = session(2, false);
    s.on_payload(&inline("a", 0, 5, 1, 5), b"hello".to_vec()).unwrap();
    assert_eq!(s.mismatches, 1);
    s.on_payload(&inline("a", 0, 6, 1, 5), b"hello".to_vec()).unwrap();
    assert_eq!(s.mismatches, 3);
    s.on_payload(&inline("a", 0, 5, 0, 5), b"hello".to_vec()).unwrap();
    assert_eq!(s.mismatches, 3);
    let mut lax = session(0, false);
    lax.on_payload(&inline("a", 0, 5, 1, 5), b"hello".to_vec()).unwrap();
    assert_eq!(lax.mismatches, 0);
    lax.settle_file(&inline("a", 0, 4, 1, 5), b"hello".to_vec(), 1).unwrap();
    assert_eq!(lax.mismatches, 1);
}

#[test]
fn compressed_files_are_unpacked() {
    let mut s = session(2, false);
    let data = text(3000);
    let block = lz4_flex::compress_prepend_size(&data);
    let hash = xxhash_rust::xxh3::xxh3_64(&data);
    let a = s.on_payload(&inline("a", 1, 3000, hash, block.len() as u64), block).unwrap();
    assert_eq!(a.content, data);
    assert_eq!(s.mismatches, 0);
}

#[test]
fn faulty_files_end_the_transfer() {
    let mut s = session(2, false);
    let bad = s.on_payload(&inline("a", 1, 3, 0, 3), b"xyz".to_vec());
    assert_eq!(bad.unwrap_err(), FileError::BadBlock);
    let up = s.on_payload(&inline("../a", 0, 3, 0, 3), b"xyz".to_vec());
    assert_eq!(up.unwrap_err(), FileError::Path(PathError::Escape));
    let empty = s.on_payload(&inline("", 0, 3, 0, 3), b"xyz".to_vec());
    assert_eq!(empty.unwrap_err(), FileError::Path(PathError::BadLength));
    let mut run = vec![3, 0, 0, 0];
    run.extend(std::iter::repeat(0xFFu8).take(16_843_010));
    assert!(!can_unpack(&run));
    let untried = s.on_payload(&inline("a", 1, 3, 0, run.len() as u64), run);
    assert_eq!(untried.unwrap_err(), FileError::UntriedBlock);
    assert_eq!((s.idx, s.mismatches), (0, 0));
}

#[test]
fn long_runs_of_literals_are_no_lengths() {
    let n: usize = 16_900_000;
    let data = vec![0xFFu8; n];
    let mut block = (n as u32).to_le_bytes().to_vec();
    block.push(0xF0);
    block.extend(std::iter::repeat(0xFFu8).take((n - 15) / 255));
    block.push(((n - 15) % 255) as u8);
    block.extend_from_slice(&data);
    assert!(can_unpack(&block));
    let mut s = session(0, false);
    let a = s.on_payload(&inline("a", 1, n as u64, 0, block.len() as u64), block).unwrap();
    assert!(a.content == data);
    assert_eq!(s.mismatches, 0);
}

#[test]
fn existing_files_are_kept_unless_asked() {
    let keep = session(0, false);
    assert!(keep.writes(false) && !keep.writes(true));
    assert!(session(4, false).writes(true));
    assert_eq!(keep.place_shard(false), ShardPlace::Create);
    assert_eq!(keep.place_shard(true), ShardPlace::Keep);
    assert_eq!(session(0, true).place_shard(true), ShardPlace::Create);
}

#[test]
fn chunks_of_a_kept_file_are_counted_and_dropped() {
    let mut s = session(2, false);
    s.shard_placed(vec!["old".to_string()], 10, 5, true);
    s.shard_placed(vec!["new".to_string()], 10, 5, false);
    assert_eq!(s.chunk_place(0), ChunkPlace::Drop(0));
    assert_eq!(s.chunk_place(1), ChunkPlace::Write(1));
    assert_eq!(s.chunk_place(2), ChunkPlace::Wait);
    s.on_chunk(0, 10);
    s.on_chunk(1, 10);
    assert!(s.complete());
    assert_eq!(s.sent, 20);
    assert_eq!((s.time_for(0), s.time_for(1)), (None, Some(5)));
    let mut list = HashList::start(2);
    list.add(0, 77);
    list.add(1, 78);
    assert_eq!(s.expected_hash(&list.hashes, 0), None);
    assert_eq!(s.expected_hash(&list.hashes, 1), Some(78));
}

#[test]
fn sharded_files_are_found_by_their_index() {
    let mut s = session(2, false);
    for i in 0..6u64 {
        if i % 2 == 0 {
            s.shard_placed(vec![format!("f{}", i)], 10 * i, i, false);
        } else {
            s.on_payload(&inline("x", 0, 0, 0, 0), vec![]).unwrap();
        }
    }
    assert_eq!(s.find(4), Some(2));
    assert_eq!(s.find(3), None);
    assert_eq!(s.find(9), None);
    assert!(!s.complete());
    let u = s.on_chunk(1, 20);
    assert_eq!((u.label.as_str(), u.sent_bytes), ("Receiving...", 20));
    s.on_chunk(2, 15);
    s.on_chunk(2, 25);
    assert!(s.complete());
    assert_eq!((s.time_for(0), s.time_for(1)), (None, Some(2)));
    let mut list = HashList::start(2);
    list.add(2, 77);
    list.add(4, 0);
    assert_eq!(list.left, 0);
    assert_eq!(s.expected_hash(&list.hashes, 0), None);
    assert_eq!(s.expected_hash(&list.hashes, 1), Some(77));
    assert_eq!(s.expected_hash(&list.hashes, 2), None);
    s.on_verified(77, Some(77));
    assert_eq!(s.mismatches, 0);
    s.on_verified(77, Some(78));
    s.on_verified(77, None);
    assert_eq!(s.mismatches, 2);
    assert_eq!(s.ack(), encode_ack(2));
    let c = s.closing("fine");
    assert_eq!(c.error.as_deref(), Some("2 checksum mismatches"));
}

#[test]
fn good_transfers_close_with_a_label() {
    let mut s = session(0, false);
    s.on_payload(&inline("x", 0, 25, 0, 25), vec![0; 25]).unwrap();
    let c = s.closing("Received 25 B");
    assert!(c.done && c.error.is_none());
    assert_eq!((c.sent_bytes, c.total_bytes, c.label.as_str()), (25, 25, "Received 25 B"));
}

#[test]
fn waiting_ends() {
    assert_eq!(wait_step(true, false), WaitStep::Done);
    assert_eq!(wait_step(false, true), WaitStep::GiveUp);
    assert_eq!(wait_step(false, false), WaitStep::Again);
    assert_eq!(chunk_end(5, 3), Some(8));
    assert_eq!(chunk_end(u64::MAX, 1), None);
    let mut h = FileHash::start();
    h.on_read(b"ab");
    h.on_read(b"c");
    assert_eq!(h.finish(), xxhash_rust::xxh3::xxh3_64(b"abc"));
}

#[test]
fn data_connections_take_their_course() {
    let (mut c, first) = DataConn::start(5);
    assert!(matches!(first, DataAction::Read(14)));
    assert!(matches!(c.step(DataEvent::Bytes(encode_hello(5))), DataAction::Answer(0)));
    assert!(matches!(c.step(DataEvent::Done), DataAction::Read(20)));
    let frame = filele::messages::encode_chunk(3, 9, b"xyz");
    assert!(matches!(c.step(DataEvent::Bytes(frame[..20].to_vec())), DataAction::Read(3)));
    match c.step(DataEvent::Bytes(b"xyz".to_vec())) {
        DataAction::Write { file_idx, offset, data } => {
            assert_eq!((file_idx, offset, data), (3, 9, b"xyz".to_vec()));
        }
        other => panic!("{:?}", other),
    }
    assert!(matches!(c.step(DataEvent::Done), DataAction::Read(20)));
    assert!(matches!(c.step(DataEvent::End), DataAction::Finish));
}

#[test]
fn data_connections_take_all_of_their_stream() {
    // Seven chunks that go round three streams.
    let chunks: Vec<(u64, u64, Vec<u8>)> =
        (0..7).map(|i| (i / 4, 10 * i, noise(3 + i as usize, i + 1))).collect();
    let mut came = 0;
    for x in 0..3usize {
        let mut stream = encode_hello(8);
        for (_, c) in chunks.iter().enumerate().filter(|(i, _)| i % 3 == x) {
            stream.extend(filele::messages::encode_chunk(c.0, c.1, &c.2));
        }
        let (mut conn, mut act) = DataConn::start(8);
        let mut answers = Vec::new();
        let mut next = x;
        loop {
            act = match act {
                DataAction::Read(n) if n <= stream.len() => {
                    let b = take(&mut stream, n);
                    conn.step(DataEvent::Bytes(b))
                }
                DataAction::Read(_) => conn.step(DataEvent::End),
                DataAction::Answer(a) => {
                    answers.push(a);
                    conn.step(DataEvent::Done)
                }
                DataAction::Write { file_idx, offset, data } => {
                    assert_eq!((file_idx, offset, data), chunks[next]);
                    next += 3;
                    came += 1;
                    conn.step(DataEvent::Done)
                }
                DataAction::Finish => break,
                other => panic!("{:?}", other),
            };
        }
        assert_eq!(answers, vec![0]);
        assert!(stream.is_empty());
    }
    assert_eq!(came, 7);
}

#[test]
fn data_connections_can_fail() {
    let (mut c, _) = DataConn::start(5);
    assert!(matches!(c.step(DataEvent::Bytes(encode_hello(6))), DataAction::Answer(1)));
    assert!(matches!(c.step(DataEvent::Done), DataAction::Fail(DataFault::BadHello)));
    let (mut d, _) = DataConn::start(5);
    assert!(matches!(d.step(DataEvent::End), DataAction::Fail(DataFault::CutShort)));
    let (mut e, _) = DataConn::start(5);
    e.step(DataEvent::Bytes(encode_hello(5)));
    e.step(DataEvent::Done);
    let bad = filele::messages::encode_chunk(3, 9, b"");
    assert!(matches!(e.step(DataEvent::Bytes(bad)), DataAction::Fail(DataFault::BadLen(0))));
    let (mut f, _) = DataConn::start(5);
    f.step(DataEvent::Bytes(encode_hello(5)));
    f.step(DataEvent::Done);
    f.step(DataEvent::Bytes(filele::messages::encode_chunk(3, 9, b"xx")));
    assert!(matches!(f.step(DataEvent::End), DataAction::Fail(DataFault::CutShort)));
}

/// Both sides, joined by byte queues, with files in memory.
struct Net {
    to_recv: Vec<u8>,
    frames: Vec<Vec<Vec<u8>>>,
    reports: Vec<TransferUpdate>,
}

fn take(q: &mut Vec<u8>, n: usize) -> Vec<u8> {
    assert!(q.len() >= n);
    q.drain(..n).collect()
}

fn run(
    jobs: Vec<Job>,
    contents: Vec<Vec<u8>>,
    opt: SendOptions,
    chunk: usize,
    spoil: bool,
) -> (AckOutcome, HashMap<Vec<String>, Vec<u8>>, Vec<Vec<String>>, Vec<TransferUpdate>) {
    let total: u64 = contents.iter().map(|c| c.len() as u64).sum();
    let o = outline_with(&jobs, total, &opt, 99).unwrap();
    let n = o.handshake.nstreams as usize;
    let (mut s, hello) = Sending::start(jobs, o.handshake, opt.compress, opt.checksum);
    let mut net = Net { to_recv: hello, frames: vec![Vec::new(); n], reports: Vec::new() };
    let (mut r, mut act) = Receiving::start(false);
    // Handshake.
    loop {
        match act {
            RecvAction::Read(k) => {
                let b = take(&mut net.to_recv, k);
                act = r.step(RecvEvent::Bytes(b));
            }
            RecvAction::Ask(h) => {
                assert_eq!(h, o.handshake);
                break;
            }
            other => panic!("{:?}", other),
        }
    }
    net.reports.push(s.opening());
    // Sender to its end.
    let mut reply = match r.step(RecvEvent::Verdict { allowed: true, port: 53318 }) {
        RecvAction::Begin(answer) => answer,
        other => panic!("{:?}", other),
    };
    assert_eq!(reply, encode_accept(53318));
    let mut need = 6;
    let mut ev;
    let mut readers: HashMap<usize, usize> = HashMap::new();
    let mut open: Option<usize> = None;
    loop {
        ev = SendEvent::Bytes(take(&mut reply, need));
        match s.step(ev) {
            SendAction::Read(k) => need = k,
            SendAction::OpenStream { port, hello } => {
                assert_eq!(port, 53318);
                assert_eq!(hello, encode_hello(99));
                let mut a = s.step(SendEvent::Answer(0));
                let mut opened = 1;
                while let SendAction::OpenStream { .. } = a {
                    opened += 1;
                    a = s.step(SendEvent::Answer(0));
                }
                match a {
                    SendAction::Start(u) => net.reports.push(u),
                    other => panic!("{:?}", other),
                }
                assert_eq!(opened, n);
                break;
            }
            SendAction::Start(u) => {
                net.reports.push(u);
                break;
            }
            other => panic!("{:?}", other),
        }
    }
    ev = SendEvent::Done;
    loop {
        match s.step(ev) {
            SendAction::Send { bytes, report } => {
                net.to_recv.extend_from_slice(&bytes);
                net.reports.extend(report);
                ev = SendEvent::Done;
            }
            SendAction::ReadFile(id) => ev = SendEvent::Content(contents[id].clone()),
            SendAction::OpenShard { id, bytes } => {
                net.to_recv.extend_from_slice(&bytes);
                readers.insert(id, 0);
                open = Some(id);
                let end = chunk.min(contents[id].len());
                readers.insert(id, end);
                ev = SendEvent::Part(contents[id][..end].to_vec());
            }
            SendAction::SendChunk { worker, frame, update } => {
                net.frames[worker].push(frame);
                net.reports.push(update);
                let id = open.unwrap();
                let from = readers[&id];
                let end = (from + chunk).min(contents[id].len());
                readers.insert(id, end);
                ev = SendEvent::Part(contents[id][from..end].to_vec());
            }
            SendAction::ReadOn(most) => {
                let id = open.unwrap();
                let from = readers[&id];
                let end = (from + chunk.min(most)).min(contents[id].len());
                readers.insert(id, end);
                ev = SendEvent::Part(contents[id][from..end].to_vec());
            }
            SendAction::Next => ev = SendEvent::Done,
            SendAction::Flush => ev = SendEvent::Done,
            SendAction::SendEnd(b) => {
                net.to_recv.extend_from_slice(&b);
                break;
            }
            other => panic!("{:?}", other),
        }
    }
    // Receiver to its end; the streams are emptied last first.
    let mut files: HashMap<Vec<String>, Vec<u8>> = HashMap::new();
    let mut dirs: Vec<Vec<String>> = Vec::new();
    let mut act = r.step(RecvEvent::Done);
    let mut drained = false;
    let ack = loop {
        act = match act {
            RecvAction::Read(k) => {
                let b = take(&mut net.to_recv, k);
                r.step(RecvEvent::Bytes(b))
            }
            RecvAction::MakeDir { dest, .. } => {
                dirs.push(dest);
                r.step(RecvEvent::Done)
            }
            RecvAction::Write(w) => {
                files.insert(w.dest, w.content);
                r.step(RecvEvent::Done)
            }
            RecvAction::Look(dest) => {
                let there = files.contains_key(&dest);
                r.step(RecvEvent::There(there))
            }
            RecvAction::Make { dest, size } => {
                files.insert(dest, vec![0; size as usize]);
                r.step(RecvEvent::Done)
            }
            RecvAction::Wait => {
                assert!(!drained);
                drained = true;
                for stream in net.frames.iter().rev() {
                    for f in stream.iter().rev() {
                        let idx = u64::from_le_bytes(f[0..8].try_into().unwrap());
                        let off = u64::from_le_bytes(f[8..16].try_into().unwrap()) as usize;
                        let pos = r.session.find(idx).unwrap();
                        let dest = r.session.shards[pos].dest.clone();
                        let file = files.get_mut(&dest).unwrap();
                        file[off..off + f.len() - 20].copy_from_slice(&f[20..]);
                        r.on_chunk(pos, (f.len() - 20) as u64);
                    }
                }
                r.step(RecvEvent::Time(false))
            }
            RecvAction::Join => {
                if spoil {
                    for s in r.session.shards.iter() {
                        files.get_mut(&s.dest).unwrap()[0] ^= 1;
                    }
                }
                r.step(RecvEvent::Done)
            }
            RecvAction::Hash(pos) => {
                let mut h = FileHash::start();
                h.on_read(&files[&r.session.shards[pos].dest]);
                let digest = h.finish();
                r.step(RecvEvent::Digest(Some(digest)))
            }
            RecvAction::Finish(ack) => break ack,
            other => panic!("{:?}", other),
        };
    };
    assert!(net.to_recv.is_empty());
    match s.step(SendEvent::Bytes(ack)) {
        SendAction::Finish(outcome) => {
            net.reports.extend(s.ending(outcome, "fine"));
            (outcome, files, dirs, net.reports)
        }
        other => panic!("{:?}", other),
    }
}

fn name(rel: &str) -> Vec<String> {
    rel.split('/').map(|s| s.to_string()).collect()
}

#[test]
fn small_files_arrive_with_any_options() {
    for bits in 0..8u8 {
        let contents = vec![vec![], b"hi".to_vec(), text(9000), noise(9000, 3)];
        let mut jobs = vec![folder(0, "d")];
        for (i, c) in contents.iter().enumerate().skip(1) {
            jobs.push(job(i, &format!("d/f{}.txt", i), c.len() as u64));
        }
        let opt = options(4, bits & 1 != 0, bits & 2 != 0, bits & 4 != 0);
        let (outcome, files, dirs, reports) = run(jobs, contents.clone(), opt, 10, false);
        assert_eq!(outcome, AckOutcome::Success);
        assert_eq!(dirs, vec![vec!["d".to_string()]]);
        for i in 1..4 {
            assert_eq!(files[&name(&format!("d/f{}.txt", i))], contents[i]);
        }
        assert_eq!(reports.last().unwrap().sent_bytes, 18002);
    }
}

#[test]
fn large_files_arrive_in_pieces() {
    let big = noise(64 * MIB as usize + 12345, 11);
    let contents = vec![b"small".to_vec(), big.clone()];
    let jobs = vec![job(0, "a.txt", 5), job(1, "big.bin", big.len() as u64)];
    let (outcome, files, _, _) =
        run(jobs, contents, options(3, false, true, true), 3 * MIB as usize, false);
    assert_eq!(outcome, AckOutcome::Success);
    assert!(files[&name("big.bin")] == big);
    assert_eq!(files[&name("a.txt")], b"small");
}

#[test]
fn nothing_but_what_was_sent_arrives() {
    let contents = vec![vec![], text(70), noise(64 * MIB as usize + 1, 21), vec![]];
    let jobs = vec![
        folder(0, "d"),
        job(1, "d/a.txt", 70),
        job(2, "d/big.bin", 64 * MIB + 1),
        job(3, "empty", 0),
    ];
    let (outcome, files, dirs, _) =
        run(jobs, contents.clone(), options(2, true, true, false), 4 * MIB as usize, false);
    assert_eq!(outcome, AckOutcome::Success);
    assert_eq!(dirs, vec![name("d")]);
    assert_eq!(files.len(), 3);
    assert_eq!(files[&name("d/a.txt")], contents[1]);
    assert!(files[&name("d/big.bin")] == contents[2]);
    assert!(files[&name("empty")].is_empty());
}

#[test]
fn large_files_arrive_without_a_checksum() {
    let big = noise(64 * MIB as usize + 7, 13);
    let jobs = vec![job(0, "big.bin", big.len() as u64)];
    let (outcome, files, _, _) =
        run(jobs, vec![big.clone()], options(2, false, false, true), 5_000_000, false);
    assert_eq!(outcome, AckOutcome::Success);
    assert!(files[&name("big.bin")] == big);
}

#[test]
fn an_existing_large_file_is_left_alone() {
    let h = Handshake { flags: 0, token: 1, nstreams: 1, nfiles: 1, total: 64 * MIB };
    let (mut r, _) = Receiving::start(false);
    let hello = filele::messages::encode_handshake(h);
    assert!(matches!(r.step(RecvEvent::Bytes(hello)), RecvAction::Ask(_)));
    let yes = RecvEvent::Verdict { allowed: true, port: 9 };
    assert!(matches!(r.step(yes), RecvAction::Begin(_)));
    assert!(matches!(r.step(RecvEvent::Done), RecvAction::Read(1)));
    let e = Entry {
        kind: EntryKind::Sharded { nchunks: 16, csize: 4 * MIB as u32 },
        flags: 0,
        rel: "old.bin".to_string(),
        size: 64 * MIB,
        mtime: 9,
        mode: 0,
    };
    let a = r.step(RecvEvent::Bytes(filele::entry::encode_entry(&e)));
    assert!(matches!(a, RecvAction::Look(dest) if dest == name("old.bin")));
    assert!(matches!(r.step(RecvEvent::There(true)), RecvAction::Read(1)));
    assert!(r.session.shards[0].kept);
    assert_eq!(r.session.chunk_place(0), ChunkPlace::Drop(0));
}

#[test]
fn spoiled_pieces_are_noticed() {
    let big = noise(64 * MIB as usize, 12);
    let jobs = vec![job(0, "big.bin", big.len() as u64)];
    let (outcome, _, _, _) =
        run(jobs, vec![big], options(1, false, true, true), 4 * MIB as usize, true);
    assert_eq!(outcome, AckOutcome::Mismatches(1));
}

#[test]
fn strangers_are_refused_and_told() {
    let (mut r, _) = Receiving::start(true);
    match r.step(RecvEvent::Bytes(b"GET / ".to_vec())) {
        RecvAction::Refuse(answer) => assert_eq!(answer, encode_reject()),
        other => panic!("{:?}", other),
    }
    let h = Handshake { flags: 0, token: 1, nstreams: 0, nfiles: 1, total: 1 };
    let (mut s, _) = Sending::start(vec![job(0, "a", 1)], h, false, false);
    let a = s.step(SendEvent::Bytes(encode_reject()));
    assert!(matches!(a, SendAction::Fail(SendFault::Rejected(1))));
    let (mut t, _) = Sending::start(vec![job(0, "a", 1)], h, false, false);
    let b = t.step(SendEvent::Bytes(b"HTTP/1.1 400".to_vec()));
    assert!(matches!(b, SendAction::Fail(SendFault::Mismatch)));
}

#[test]
fn senders_that_are_not_let_in_send_nothing() {
    let h = Handshake { flags: 2, token: 1, nstreams: 0, nfiles: 1, total: 7 };
    let (mut s, hello) = Sending::start(vec![job(0, "a", 7)], h, false, false);
    let first = s.opening();
    assert_eq!(first.files.unwrap().len(), 1);
    let (mut r, _) = Receiving::start(true);
    match r.step(RecvEvent::Bytes(hello)) {
        RecvAction::Ask(asked) => assert_eq!(asked, h),
        other => panic!("{:?}", other),
    }
    let answer = match r.step(RecvEvent::Verdict { allowed: false, port: 9 }) {
        RecvAction::Refuse(answer) => answer,
        other => panic!("{:?}", other),
    };
    assert_eq!(answer, encode_verdict(false, 9));
    assert_ne!(answer, encode_reject());
    match s.step(SendEvent::Bytes(answer)) {
        SendAction::Fail(f) => {
            assert_eq!(f, SendFault::Rejected(DENIED));
            let u = s.fault(f).unwrap();
            assert_eq!(u.error.as_deref(), Some("Declined by receiver"));
            assert!(u.done && u.total_bytes == 7);
            assert!(s.fault(SendFault::Rejected(1)).is_none());
            assert!(s.fault(SendFault::StreamRefused).is_none());
        }
        other => panic!("{:?}", other),
    }
}

#[test]
fn reports_tell_the_course_of_a_sending() {
    let big = noise(64 * MIB as usize + 9, 5);
    let contents = vec![vec![], text(50), big.clone(), b"end".to_vec()];
    let jobs = vec![
        folder(0, "d"),
        job(1, "d/a", 50),
        job(2, "d/b", big.len() as u64),
        job(3, "e", 3),
    ];
    let (outcome, _, _, us) =
        run(jobs, contents, options(2, true, true, true), 4 * MIB as usize, false);
    assert_eq!(outcome, AckOutcome::Success);
    let names: Vec<String> =
        us[0].files.as_ref().unwrap().iter().map(|f| f.name.clone()).collect();
    assert_eq!(names, vec!["d/a", "d/b", "e"]);
    assert_eq!(us[1].label, "Starting...");
    let mut last = (0, 0);
    for (j, u) in us.iter().enumerate() {
        assert_eq!(u.files.is_some(), j == 0);
        assert_eq!(u.done, j == us.len() - 1);
        assert!(u.sent_bytes >= last.0);
        last.0 = u.sent_bytes;
        if let Some(f) = u.file_index {
            assert!(last.1 <= f && f < 3);
            last.1 = f;
            assert!(j == 0 || u.label == names[f]);
        }
    }
    let end = us.last().unwrap();
    assert!(end.error.is_none());
    assert_eq!((end.label.as_str(), end.sent_bytes), ("fine", 64 * MIB + 62));
    let full = us.iter().filter(|u| u.file_index == Some(1)).last().unwrap();
    assert_eq!(full.file_sent, Some(big.len() as u64));
}

#[test]
fn the_last_answer_closes_a_sending() {
    let h = Handshake { flags: 0, token: 1, nstreams: 0, nfiles: 1, total: 7 };
    let (s, _) = Sending::start(vec![job(0, "a", 7)], h, false, false);
    let u = s.ending(AckOutcome::Mismatches(3), "fine").unwrap();
    assert_eq!(u.error.as_deref(), Some("3 checksum mismatches"));
    assert!(s.ending(AckOutcome::NoAnswer, "fine").is_none());
}

#[test]
fn refused_streams_end_the_transfer() {
    let h = Handshake { flags: 0, token: 1, nstreams: 2, nfiles: 1, total: 1 };
    let (mut s, _) = Sending::start(vec![job(0, "a", 64 * MIB)], h, false, false);
    assert!(matches!(
        s.step(SendEvent::Bytes(encode_accept(9))),
        SendAction::OpenStream { port: 9, .. }
    ));
    assert!(matches!(s.step(SendEvent::Answer(1)), SendAction::Fail(SendFault::StreamRefused)));
}

fn fed(bytes: &[u8]) -> RecvAction {
    let h = Handshake { flags: 0, token: 1, nstreams: 0, nfiles: 1, total: 1 };
    let (mut r, _) = Receiving::start(true);
    let hello = filele::messages::encode_handshake(h);
    assert!(matches!(r.step(RecvEvent::Bytes(hello)), RecvAction::Ask(_)));
    let yes = RecvEvent::Verdict { allowed: true, port: 9 };
    assert!(matches!(r.step(yes), RecvAction::Begin(_)));
    assert!(matches!(r.step(RecvEvent::Done), RecvAction::Read(1)));
    r.step(RecvEvent::Bytes(bytes.to_vec()))
}

#[test]
fn faulty_entries_end_the_transfer() {
    assert!(matches!(fed(&[9]), RecvAction::Fail(RecvFault::UnknownEntry(9))));
    assert!(matches!(fed(&[0, 0, 1, 0x40]), RecvAction::Fail(RecvFault::PathTooLong)));
    assert!(matches!(fed(&[0, 0, 1, 0, 0xFF]), RecvAction::Fail(RecvFault::BadUtf8)));
    assert!(matches!(fed(&[0]), RecvAction::Read(3)));
    let up = Entry {
        kind: EntryKind::Dir,
        flags: 0,
        rel: "../x".to_string(),
        size: 0,
        mtime: 0,
        mode: 0,
    };
    assert!(matches!(
        fed(&filele::entry::encode_entry(&up)),
        RecvAction::Fail(RecvFault::File(FileError::Path(PathError::Escape)))
    ));
    let big = inline("x", 0, 300 * MIB, 0, 300 * MIB);
    assert!(matches!(
        fed(&filele::entry::encode_entry(&big)),
        RecvAction::Fail(RecvFault::TooBig(n)) if n == 300 * MIB
    ));
}

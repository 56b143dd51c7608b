//! The messages that open and close a transfer, and those of the data streams.

use vstd::prelude::*;

use crate::protocol::{data_port, ENTRY_END, MAGIC, MAX_CHUNK, VERSION};
use crate::wire::{
    field,
    law_equal_fields_have_equal_bytes,
    law_lowest_byte_stands_first,
    le_bytes,
    lemma_field,
    lemma_le_bytes_len,
    lemma_low_bytes,
    lemma_one_byte,
    lemma_pow256,
    read_u16,
    read_u32,
    read_u64,
    read_u8,
    write_u16,
    write_u32,
    write_u64,
    write_u8,
};

verus! {

broadcast use lemma_le_bytes_len;

// ---------------------------------------------------------------------------
// Handshake
// ---------------------------------------------------------------------------

/// What the sender says of the transfer as a whole.
#[derive(Clone, Copy, Debug, PartialEq, Eq, Structural)]
pub struct Handshake {
    pub flags: u16,
    pub token: u64,
    pub nstreams: u8,
    pub nfiles: u64,
    pub total: u64,
}

/// The bytes that say who is speaking, and in which version.
pub open spec fn greeting() -> Seq<u8> {
    le_bytes(MAGIC as nat, 4) + le_bytes(VERSION as nat, 2)
}

/// The handshake on the wire.
pub open spec fn handshake_bytes(h: Handshake) -> Seq<u8> {
    greeting() + le_bytes(h.flags as nat, 2) + le_bytes(h.token as nat, 8) + le_bytes(
        h.nstreams as nat,
        1,
    ) + le_bytes(h.nfiles as nat, 8) + le_bytes(h.total as nat, 8)
}

/// How long a greeting is.
pub const GREETING_LEN: usize = 6;

/// How long a handshake is.
pub const HANDSHAKE_LEN: usize = 33;

/// How long the answer to a handshake is.
pub const REPLY_LEN: usize = 9;

/// How long the opening of a data stream is.
pub const HELLO_LEN: usize = 14;

/// How long the header of a chunk is.
pub const CHUNK_HEAD_LEN: usize = 20;

/// How long the last answer of the receiver is.
pub const ACK_LEN: usize = 9;

fn write_greeting(w: &mut Vec<u8>)
    ensures
        final(w)@ == old(w)@ + greeting(),
{
    write_u32(w, MAGIC);
    write_u16(w, VERSION);
    assert(w@ =~= old(w)@ + greeting());
}

/// The handshake on the wire.
pub fn encode_handshake(h: Handshake) -> (r: Vec<u8>)
    ensures
        r@ == handshake_bytes(h),
        r@.len() == HANDSHAKE_LEN,
{
    let mut r: Vec<u8> = Vec::new();
    write_greeting(&mut r);
    write_u16(&mut r, h.flags);
    write_u64(&mut r, h.token);
    write_u8(&mut r, h.nstreams);
    write_u64(&mut r, h.nfiles);
    write_u64(&mut r, h.total);
    assert(r@ =~= handshake_bytes(h));
    r
}

/// What the bytes of a handshake read so far amount to.
#[derive(Clone, Copy, Debug, PartialEq, Eq, Structural)]
pub enum HandshakeStep {
    /// This many bytes are needed from the start before more can be said.
    Need(usize),
    /// The peer speaks another protocol or version.
    Mismatch,
    Done(Handshake),
}

/// Whether the bytes start with the greeting of this protocol and version.
pub open spec fn greets(buf: Seq<u8>) -> bool {
    field(buf, 0, 4) == MAGIC && field(buf, 4, 2) == VERSION
}

/// What the bytes of a handshake read so far amount to. The greeting is judged
/// before any byte behind it is asked for.
pub open spec fn handshake_step(buf: Seq<u8>) -> HandshakeStep {
    if buf.len() < GREETING_LEN {
        HandshakeStep::Need(GREETING_LEN)
    } else if !greets(buf) {
        HandshakeStep::Mismatch
    } else if buf.len() < HANDSHAKE_LEN {
        HandshakeStep::Need(HANDSHAKE_LEN)
    } else {
        HandshakeStep::Done(
            (Handshake {
                flags: field(buf, 6, 2) as u16,
                token: field(buf, 8, 8) as u64,
                nstreams: field(buf, 16, 1) as u8,
                nfiles: field(buf, 17, 8) as u64,
                total: field(buf, 25, 8) as u64,
            }),
        )
    }
}

/// What the bytes of a handshake read so far amount to.
pub fn decode_handshake(buf: &[u8]) -> (r: HandshakeStep)
    ensures
        r == handshake_step(buf@),
{
    match (read_u32(buf, 0), read_u16(buf, 4)) {
        (Some(magic), Some(ver)) => {
            if magic != MAGIC || ver != VERSION {
                return HandshakeStep::Mismatch;
            }
        },
        _ => {
            return HandshakeStep::Need(GREETING_LEN);
        },
    }
    match (
        read_u16(buf, 6),
        read_u64(buf, 8),
        read_u8(buf, 16),
        read_u64(buf, 17),
        read_u64(buf, 25),
    ) {
        (Some(flags), Some(token), Some(nstreams), Some(nfiles), Some(total)) => {
            HandshakeStep::Done(Handshake { flags, token, nstreams, nfiles, total })
        },
        _ => HandshakeStep::Need(HANDSHAKE_LEN),
    }
}

proof fn lemma_greets(buf: Seq<u8>)
    requires
        buf.len() >= GREETING_LEN,
        buf.subrange(0, 6) == greeting(),
    ensures
        greets(buf),
{
    lemma_pow256();
    assert(buf.subrange(0, 4) =~= greeting().subrange(0, 4));
    assert(greeting().subrange(0, 4) =~= le_bytes(MAGIC as nat, 4));
    assert(buf.subrange(4, 6) =~= greeting().subrange(4, 6));
    assert(greeting().subrange(4, 6) =~= le_bytes(VERSION as nat, 2));
    lemma_field(buf, 0, 4, MAGIC as nat);
    lemma_field(buf, 4, 2, VERSION as nat);
}

/// A handshake reads back as it was written, whatever bytes follow it.
pub proof fn law_handshake_read_back(h: Handshake, rest: Seq<u8>)
    ensures
        handshake_step(handshake_bytes(h) + rest) == HandshakeStep::Done(h),
{
    let buf = handshake_bytes(h) + rest;
    lemma_pow256();
    assert(buf.subrange(0, 6) =~= greeting());
    lemma_greets(buf);
    assert(buf.subrange(6, 8) =~= le_bytes(h.flags as nat, 2));
    assert(buf.subrange(8, 16) =~= le_bytes(h.token as nat, 8));
    assert(buf.subrange(16, 17) =~= le_bytes(h.nstreams as nat, 1));
    assert(buf.subrange(17, 25) =~= le_bytes(h.nfiles as nat, 8));
    assert(buf.subrange(25, 33) =~= le_bytes(h.total as nat, 8));
    lemma_field(buf, 6, 2, h.flags as nat);
    lemma_field(buf, 8, 8, h.token as nat);
    lemma_field(buf, 16, 1, h.nstreams as nat);
    lemma_field(buf, 17, 8, h.nfiles as nat);
    lemma_field(buf, 25, 8, h.total as nat);
}

/// While a handshake is incomplete, the receiver asks for more bytes, and never
/// for more than the handshake has.
pub proof fn law_handshake_is_not_read_past(h: Handshake, n: int)
    requires
        0 <= n < HANDSHAKE_LEN,
    ensures
        handshake_step(handshake_bytes(h).take(n)) matches HandshakeStep::Need(m) && n < m
            <= handshake_bytes(h).len(),
{
    let buf = handshake_bytes(h).take(n);
    if n >= GREETING_LEN {
        assert(buf.subrange(0, 6) =~= greeting());
        lemma_greets(buf);
    }
}

// ---------------------------------------------------------------------------
// The answer to a handshake
// ---------------------------------------------------------------------------

/// The answer to a handshake on the wire.
pub open spec fn reply_bytes(status: u8, port: u16) -> Seq<u8> {
    greeting() + le_bytes(status as nat, 1) + le_bytes(port as nat, 2)
}

fn encode_reply(status: u8, port: u16) -> (r: Vec<u8>)
    ensures
        r@ == reply_bytes(status, port),
{
    let mut r: Vec<u8> = Vec::new();
    write_greeting(&mut r);
    write_u8(&mut r, status);
    write_u16(&mut r, port);
    assert(r@ =~= reply_bytes(status, port));
    r
}

/// The answer that lets a transfer begin, with the port of the data streams.
pub fn encode_accept(port: u16) -> (r: Vec<u8>)
    ensures
        r@ == reply_bytes(0, port),
{
    encode_reply(0, port)
}

/// The answer to a peer of another protocol or version.
pub fn encode_reject() -> (r: Vec<u8>)
    ensures
        r@ == reply_bytes(1, 1),
{
    encode_reply(1, data_port(0))
}

/// The reason in the answer to a sender that is not let in.
pub const DENIED: u8 = 2;

/// The answer to a sender that asked to be let in: the port of the data streams
/// where it is, a reason where it is not.
pub open spec fn verdict_bytes(allowed: bool, port: u16) -> Seq<u8> {
    if allowed {
        reply_bytes(0, port)
    } else {
        reply_bytes(DENIED, 0)
    }
}

/// The answer to a sender that asked to be let in.
pub fn encode_verdict(allowed: bool, port: u16) -> (r: Vec<u8>)
    ensures
        r@ == verdict_bytes(allowed, port),
{
    if allowed {
        encode_accept(port)
    } else {
        encode_reply(DENIED, 0)
    }
}

/// A sender learns from the answer whether it is let in.
pub proof fn law_verdict_read_back(allowed: bool, port: u16)
    ensures
        allowed ==> reply_step(verdict_bytes(allowed, port)) == ReplyStep::Accepted(port),
        !allowed ==> reply_step(verdict_bytes(allowed, port)) == ReplyStep::Rejected(DENIED),
{
    law_reply_read_back(0, port);
    law_reply_read_back(DENIED, 0);
}

/// What the bytes of an answer read so far amount to.
#[derive(Clone, Copy, Debug, PartialEq, Eq, Structural)]
pub enum ReplyStep {
    /// This many bytes are needed from the start before more can be said.
    Need(usize),
    /// The peer speaks another protocol or version.
    Mismatch,
    /// The receiver refuses, for the reason given.
    Rejected(u8),
    /// The receiver agrees and takes data streams at the port.
    Accepted(u16),
}

/// What the bytes of an answer read so far amount to.
pub open spec fn reply_step(buf: Seq<u8>) -> ReplyStep {
    if buf.len() < GREETING_LEN {
        ReplyStep::Need(GREETING_LEN)
    } else if !greets(buf) {
        ReplyStep::Mismatch
    } else if buf.len() < REPLY_LEN {
        ReplyStep::Need(REPLY_LEN)
    } else if field(buf, 6, 1) != 0 {
        ReplyStep::Rejected(field(buf, 6, 1) as u8)
    } else {
        ReplyStep::Accepted(field(buf, 7, 2) as u16)
    }
}

/// What the bytes of an answer read so far amount to.
pub fn decode_reply(buf: &[u8]) -> (r: ReplyStep)
    ensures
        r == reply_step(buf@),
{
    match (read_u32(buf, 0), read_u16(buf, 4)) {
        (Some(magic), Some(ver)) => {
            if magic != MAGIC || ver != VERSION {
                return ReplyStep::Mismatch;
            }
        },
        _ => {
            return ReplyStep::Need(GREETING_LEN);
        },
    }
    match (read_u8(buf, 6), read_u16(buf, 7)) {
        (Some(status), Some(port)) => {
            if status != 0 {
                ReplyStep::Rejected(status)
            } else {
                ReplyStep::Accepted(port)
            }
        },
        _ => ReplyStep::Need(REPLY_LEN),
    }
}

/// The sender learns from an answer just what the receiver meant by it: the port
/// where it agreed, the reason where it refused.
pub proof fn law_reply_read_back(status: u8, port: u16)
    ensures
        status == 0 ==> reply_step(reply_bytes(status, port)) == ReplyStep::Accepted(port),
        status != 0 ==> reply_step(reply_bytes(status, port)) == ReplyStep::Rejected(status),
        forall|n: int|
            0 <= n < REPLY_LEN ==> ((#[trigger] reply_step(
                reply_bytes(status, port).take(n),
            )) matches ReplyStep::Need(m) && n < m <= REPLY_LEN),
{
    let buf = reply_bytes(status, port);
    lemma_pow256();
    assert(buf.subrange(0, 6) =~= greeting());
    lemma_greets(buf);
    assert(buf.subrange(6, 7) =~= le_bytes(status as nat, 1));
    assert(buf.subrange(7, 9) =~= le_bytes(port as nat, 2));
    lemma_field(buf, 6, 1, status as nat);
    lemma_field(buf, 7, 2, port as nat);
    assert forall|n: int| 0 <= n < REPLY_LEN implies ((#[trigger] reply_step(
        reply_bytes(status, port).take(n),
    )) matches ReplyStep::Need(m) && n < m <= REPLY_LEN) by {
        if n >= GREETING_LEN {
            assert(buf.take(n).subrange(0, 6) =~= greeting());
            lemma_greets(buf.take(n));
        }
    }
}

// ---------------------------------------------------------------------------
// Data streams
// ---------------------------------------------------------------------------

/// The opening of a data stream on the wire.
pub open spec fn hello_bytes(token: u64) -> Seq<u8> {
    greeting() + le_bytes(token as nat, 8)
}

/// The opening of a data stream on the wire.
pub fn encode_hello(token: u64) -> (r: Vec<u8>)
    ensures
        r@ == hello_bytes(token),
        r@.len() == HELLO_LEN,
{
    let mut r: Vec<u8> = Vec::new();
    write_greeting(&mut r);
    write_u64(&mut r, token);
    assert(r@ =~= hello_bytes(token));
    r
}

/// The answer to the opening of a data stream: 0 where it belongs to the
/// transfer with this token, 1 where it does not, `None` while the opening is
/// incomplete.
pub open spec fn hello_answer(buf: Seq<u8>, token: u64) -> Option<u8> {
    if buf.len() < HELLO_LEN {
        None
    } else if greets(buf) && field(buf, 6, 8) == token {
        Some(0)
    } else {
        Some(1)
    }
}

/// The answer to the opening of a data stream.
pub fn answer_hello(buf: &[u8], token: u64) -> (r: Option<u8>)
    ensures
        r == hello_answer(buf@, token),
{
    match (read_u32(buf, 0), read_u16(buf, 4), read_u64(buf, 6)) {
        (Some(magic), Some(ver), Some(tok)) => {
            if magic != MAGIC || ver != VERSION || tok != token {
                Some(1)
            } else {
                Some(0)
            }
        },
        _ => None,
    }
}

/// A data stream is taken exactly where it was opened with the transfer's own
/// token.
pub proof fn law_hello_is_answered(opened_with: u64, token: u64)
    ensures
        hello_answer(hello_bytes(opened_with), token) == Some(
            if opened_with == token {
                0u8
            } else {
                1u8
            },
        ),
{
    let buf = hello_bytes(opened_with);
    lemma_pow256();
    assert(buf.subrange(0, 6) =~= greeting());
    lemma_greets(buf);
    assert(buf.subrange(6, 14) =~= le_bytes(opened_with as nat, 8));
    lemma_field(buf, 6, 8, opened_with as nat);
}

/// A chunk of a file on a data stream.
pub open spec fn chunk_bytes(file_idx: u64, offset: u64, data: Seq<u8>) -> Seq<u8> {
    le_bytes(file_idx as nat, 8) + le_bytes(offset as nat, 8) + le_bytes(data.len(), 4) + data
}

/// A chunk of a file on a data stream: header and bytes in one piece.
pub fn encode_chunk(file_idx: u64, offset: u64, data: &[u8]) -> (r: Vec<u8>)
    ensures
        r@ == chunk_bytes(file_idx, offset, data@),
{
    let mut r: Vec<u8> = Vec::new();
    write_u64(&mut r, file_idx);
    write_u64(&mut r, offset);
    let len: u32 = (data.len() as u64 % 0x1_0000_0000) as u32;
    write_u32(&mut r, len);
    proof {
        lemma_low_bytes(data@.len(), 4);
        lemma_pow256();
    }
    r.extend_from_slice(data);
    assert(r@ =~= chunk_bytes(file_idx, offset, data@));
    r
}

/// What the bytes of a chunk header read so far amount to.
#[derive(Clone, Copy, Debug, PartialEq, Eq, Structural)]
pub enum ChunkStep {
    /// This many bytes are needed from the start before more can be said.
    Need(usize),
    /// No chunk has this length.
    BadLen(u32),
    /// A chunk of `len` bytes follows, for the place `offset` of the file.
    Head { file_idx: u64, offset: u64, len: u32 },
}

/// What the bytes of a chunk header read so far amount to.
pub open spec fn chunk_step(buf: Seq<u8>) -> ChunkStep {
    if buf.len() < CHUNK_HEAD_LEN {
        ChunkStep::Need(CHUNK_HEAD_LEN)
    } else {
        let len = field(buf, 16, 4);
        if len == 0 || len > MAX_CHUNK {
            ChunkStep::BadLen(len as u32)
        } else {
            ChunkStep::Head {
                file_idx: field(buf, 0, 8) as u64,
                offset: field(buf, 8, 8) as u64,
                len: len as u32,
            }
        }
    }
}

/// What the bytes of a chunk header read so far amount to.
pub fn decode_chunk_head(buf: &[u8]) -> (r: ChunkStep)
    ensures
        r == chunk_step(buf@),
{
    match (read_u64(buf, 0), read_u64(buf, 8), read_u32(buf, 16)) {
        (Some(file_idx), Some(offset), Some(len)) => {
            if len == 0 || len > MAX_CHUNK {
                ChunkStep::BadLen(len)
            } else {
                ChunkStep::Head { file_idx, offset, len }
            }
        },
        _ => ChunkStep::Need(CHUNK_HEAD_LEN),
    }
}

/// A chunk that is neither empty nor longer than the receiver takes reads back
/// as it was written: its header names the file, the place and the length, and
/// just its bytes follow.
pub proof fn law_chunk_read_back(file_idx: u64, offset: u64, data: Seq<u8>, rest: Seq<u8>)
    requires
        0 < data.len() <= MAX_CHUNK,
    ensures
        chunk_step(chunk_bytes(file_idx, offset, data) + rest) == (ChunkStep::Head {
            file_idx,
            offset,
            len: data.len() as u32,
        }),
        (chunk_bytes(file_idx, offset, data) + rest).skip(CHUNK_HEAD_LEN as int) == data + rest,
{
    let buf = chunk_bytes(file_idx, offset, data) + rest;
    lemma_pow256();
    assert(buf.subrange(0, 8) =~= le_bytes(file_idx as nat, 8));
    assert(buf.subrange(8, 16) =~= le_bytes(offset as nat, 8));
    assert(buf.subrange(16, 20) =~= le_bytes(data.len(), 4));
    lemma_field(buf, 0, 8, file_idx as nat);
    lemma_field(buf, 8, 8, offset as nat);
    lemma_field(buf, 16, 4, data.len());
    assert(buf.skip(20) =~= data + rest);
}

// ---------------------------------------------------------------------------
// The end of a transfer
// ---------------------------------------------------------------------------

/// The hashes of sharded files on the wire.
pub open spec fn hash_list_bytes(hashes: Seq<(u64, u64)>) -> Seq<u8>
    decreases hashes.len(),
{
    if hashes.len() == 0 {
        Seq::empty()
    } else {
        hash_list_bytes(hashes.drop_last()) + (le_bytes(hashes.last().0 as nat, 8) + le_bytes(
            hashes.last().1 as nat,
            8,
        ))
    }
}

/// The end of the entries on the wire, with the hash of each sharded file.
pub open spec fn end_bytes(hashes: Seq<(u64, u64)>) -> Seq<u8> {
    le_bytes(ENTRY_END as nat, 1) + le_bytes(hashes.len(), 8) + hash_list_bytes(hashes)
}

/// The end of the entries on the wire, with the hash of each sharded file.
pub fn encode_end(hashes: &Vec<(u64, u64)>) -> (r: Vec<u8>)
    ensures
        r@ == end_bytes(hashes@),
{
    let mut r: Vec<u8> = Vec::new();
    write_u8(&mut r, ENTRY_END);
    write_u64(&mut r, hashes.len() as u64);
    let ghost head = r@;
    let mut i: usize = 0;
    assert(hashes@.take(0) =~= Seq::empty());
    assert(r@ =~= head + hash_list_bytes(hashes@.take(0)));
    while i < hashes.len()
        invariant
            i <= hashes@.len(),
            r@ == head + hash_list_bytes(hashes@.take(i as int)),
        decreases hashes@.len() - i,
    {
        write_u64(&mut r, hashes[i].0);
        write_u64(&mut r, hashes[i].1);
        proof {
            let t = hashes@.take(i + 1);
            assert(t.drop_last() =~= hashes@.take(i as int));
            assert(r@ =~= head + hash_list_bytes(t));
        }
        i = i + 1;
    }
    assert(hashes@.take(i as int) =~= hashes@);
    assert(r@ =~= end_bytes(hashes@));
    r
}

/// The hash of one sharded file, by the file's index.
pub fn decode_hash(buf: &[u8]) -> (r: Option<(u64, u64)>)
    ensures
        r is Some <==> buf@.len() >= 16,
        r matches Some(p) ==> p.0 == field(buf@, 0, 8) && p.1 == field(buf@, 8, 8),
{
    match (read_u64(buf, 0), read_u64(buf, 8)) {
        (Some(idx), Some(hash)) => Some((idx, hash)),
        _ => None,
    }
}

/// The hash list reads back, pair for pair, as it was written.
pub proof fn law_hashes_read_back(hashes: Seq<(u64, u64)>, i: int, rest: Seq<u8>)
    requires
        0 <= i < hashes.len(),
    ensures
        hash_list_bytes(hashes).len() == 16 * hashes.len(),
        field(hash_list_bytes(hashes) + rest, 16 * i, 8) == hashes[i].0,
        field(hash_list_bytes(hashes) + rest, 16 * i + 8, 8) == hashes[i].1,
    decreases hashes.len(),
{
    lemma_hash_list_len(hashes);
    lemma_pow256();
    let last = le_bytes(hashes.last().0 as nat, 8) + le_bytes(hashes.last().1 as nat, 8);
    let all = hash_list_bytes(hashes) + rest;
    assert(all =~= hash_list_bytes(hashes.drop_last()) + (last + rest));
    lemma_hash_list_len(hashes.drop_last());
    if i == hashes.len() - 1 {
        assert(all.subrange(16 * i, 16 * i + 8) =~= le_bytes(hashes[i].0 as nat, 8));
        assert(all.subrange(16 * i + 8, 16 * i + 16) =~= le_bytes(hashes[i].1 as nat, 8));
        lemma_field(all, 16 * i, 8, hashes[i].0 as nat);
        lemma_field(all, 16 * i + 8, 8, hashes[i].1 as nat);
    } else {
        law_hashes_read_back(hashes.drop_last(), i, last + rest);
    }
}

pub proof fn lemma_hash_list_len(hashes: Seq<(u64, u64)>)
    ensures
        hash_list_bytes(hashes).len() == 16 * hashes.len(),
    decreases hashes.len(),
{
    if hashes.len() > 0 {
        lemma_hash_list_len(hashes.drop_last());
    }
}

/// The last answer of the receiver on the wire.
pub open spec fn ack_bytes(mismatches: u64) -> Seq<u8> {
    le_bytes(0, 1) + le_bytes(mismatches as nat, 8)
}

/// The last answer of the receiver: how many files did not match.
pub fn encode_ack(mismatches: u64) -> (r: Vec<u8>)
    ensures
        r@ == ack_bytes(mismatches),
{
    let mut r: Vec<u8> = Vec::new();
    write_u8(&mut r, 0);
    write_u64(&mut r, mismatches);
    assert(r@ =~= ack_bytes(mismatches));
    r
}

/// How many mismatches are reported where the receiver's count did not arrive.
pub const UNKNOWN_MISMATCHES: u64 = 999;

/// How a transfer ended for its sender.
#[derive(Clone, Copy, Debug, PartialEq, Eq, Structural)]
pub enum AckOutcome {
    /// The connection ended before the receiver answered.
    NoAnswer,
    /// All files arrived as they were sent.
    Success,
    /// The receiver counted this many mismatches.
    Mismatches(u64),
}

/// How a transfer ended, by what came of the receiver's last answer before the
/// connection ended.
pub open spec fn ack_outcome(buf: Seq<u8>) -> AckOutcome {
    if buf.len() < 1 {
        AckOutcome::NoAnswer
    } else {
        let count = if buf.len() < ACK_LEN {
            UNKNOWN_MISMATCHES as nat
        } else {
            field(buf, 1, 8)
        };
        if field(buf, 0, 1) == 0 && count == 0 {
            AckOutcome::Success
        } else {
            AckOutcome::Mismatches(count as u64)
        }
    }
}

/// How a transfer ended, by what came of the receiver's last answer.
pub fn decode_ack(buf: &[u8]) -> (r: AckOutcome)
    ensures
        r == ack_outcome(buf@),
{
    match read_u8(buf, 0) {
        None => AckOutcome::NoAnswer,
        Some(status) => {
            let count: u64 = match read_u64(buf, 1) {
                Some(n) => n,
                None => UNKNOWN_MISMATCHES,
            };
            if status == 0 && count == 0 {
                AckOutcome::Success
            } else {
                AckOutcome::Mismatches(count)
            }
        },
    }
}

/// The sender counts a transfer as a success exactly where the receiver found no
/// mismatch, and learns the receiver's count otherwise.
pub proof fn law_ack_read_back(mismatches: u64)
    ensures
        mismatches == 0 ==> ack_outcome(ack_bytes(mismatches)) == AckOutcome::Success,
        mismatches != 0 ==> ack_outcome(ack_bytes(mismatches)) == AckOutcome::Mismatches(
            mismatches,
        ),
{
    let buf = ack_bytes(mismatches);
    lemma_pow256();
    assert(buf.subrange(0, 1) =~= le_bytes(0, 1));
    assert(buf.subrange(1, 9) =~= le_bytes(mismatches as nat, 8));
    lemma_field(buf, 0, 1, 0);
    lemma_field(buf, 1, 8, mismatches as nat);
}

/// An answer that breaks off is never taken for a success.
pub proof fn law_broken_ack_is_no_success(mismatches: u64, n: int)
    requires
        0 <= n < ACK_LEN,
    ensures
        ack_outcome(ack_bytes(mismatches).take(n)) != AckOutcome::Success,
{
}

// ---------------------------------------------------------------------------
// Where the bytes of the messages stand
// ---------------------------------------------------------------------------

/// The six bytes that every message of a greeting begins with: the letters FLLE and
/// the version, 1.
pub open spec fn six_bytes() -> Seq<u8> {
    seq![0x46u8, 0x4C, 0x4C, 0x45, 1, 0]
}

proof fn lemma_six_bytes()
    ensures
        greeting() == six_bytes(),
{
    let none = Seq::<u8>::empty();
    let m: nat = 0x454C_4C46;
    law_lowest_byte_stands_first(m, 4, 0, none);
    law_lowest_byte_stands_first(m / 256, 3, 0, none);
    law_lowest_byte_stands_first(m / 256 / 256, 2, 0, none);
    law_lowest_byte_stands_first(m / 256 / 256 / 256, 1, 0, none);
    law_lowest_byte_stands_first(1, 2, 0, none);
    law_lowest_byte_stands_first(0, 1, 0, none);
    let a = le_bytes(m, 4);
    let b = le_bytes(1, 2);
    assert(a.len() == 4 && b.len() == 2);
    assert(a[1] == a.drop_first()[0]);
    assert(a[2] == a.drop_first().drop_first()[0]);
    assert(a[3] == a.drop_first().drop_first().drop_first()[0]);
    assert(b[1] == b.drop_first()[0]);
    assert(greeting() =~= six_bytes());
}

/// A message is taken for one of this protocol and version just where it begins with
/// those six bytes.
pub proof fn law_only_the_greeting_greets(buf: Seq<u8>)
    requires
        buf.len() >= 6,
    ensures
        handshake_step(buf) == HandshakeStep::Mismatch <==> buf.take(6) != six_bytes(),
        reply_step(buf) == ReplyStep::Mismatch <==> buf.take(6) != six_bytes(),
{
    lemma_six_bytes();
    lemma_greeting_only(buf);
}

proof fn lemma_greeting_only(buf: Seq<u8>)
    requires
        buf.len() >= 6,
    ensures
        greets(buf) <==> buf.take(6) == greeting(),
{
    let g = greeting();
    assert(g.len() == 6);
    assert(g.subrange(0, 6) =~= g);
    lemma_greets(g);
    law_equal_fields_have_equal_bytes(buf.subrange(0, 4), g.subrange(0, 4));
    law_equal_fields_have_equal_bytes(buf.subrange(4, 6), g.subrange(4, 6));
    if greets(buf) {
        assert(buf.take(6) =~= buf.subrange(0, 4) + buf.subrange(4, 6));
        assert(g =~= g.subrange(0, 4) + g.subrange(4, 6));
    }
    if buf.take(6) == g {
        assert(buf.subrange(0, 6) =~= buf.take(6));
        lemma_greets(buf);
    }
}

/// In a handshake the six bytes come first, then the flags, the token, the number of
/// streams, the number of entries and the number of bytes.
pub proof fn law_handshake_stands_in_order(h: Handshake)
    ensures
        ({
            let b = handshake_bytes(h);
            &&& b.len() == 33
            &&& b.take(6) == six_bytes()
            &&& field(b, 6, 2) == h.flags
            &&& field(b, 8, 8) == h.token
            &&& b[16] == h.nstreams
            &&& field(b, 17, 8) == h.nfiles
            &&& field(b, 25, 8) == h.total
        }),
{
    let buf = handshake_bytes(h);
    lemma_six_bytes();
    lemma_pow256();
    assert(buf.take(6) =~= greeting());
    assert(buf.subrange(6, 8) =~= le_bytes(h.flags as nat, 2));
    assert(buf.subrange(8, 16) =~= le_bytes(h.token as nat, 8));
    assert(buf.subrange(16, 17) =~= le_bytes(h.nstreams as nat, 1));
    assert(buf.subrange(17, 25) =~= le_bytes(h.nfiles as nat, 8));
    assert(buf.subrange(25, 33) =~= le_bytes(h.total as nat, 8));
    lemma_field(buf, 6, 2, h.flags as nat);
    lemma_field(buf, 8, 8, h.token as nat);
    lemma_field(buf, 16, 1, h.nstreams as nat);
    lemma_field(buf, 17, 8, h.nfiles as nat);
    lemma_field(buf, 25, 8, h.total as nat);
    lemma_one_byte(buf, 16);
}

/// In an answer the six bytes come first, then a byte that is 0 just where the
/// transfer may begin, then a port: that of the data streams where it may begin, and 0
/// where the user said no, whose byte is 2.
pub proof fn law_answer_stands_in_order(status: u8, port: u16, allowed: bool)
    ensures
        ({
            let b = reply_bytes(status, port);
            &&& b.len() == 9 && b.take(6) == six_bytes()
            &&& b[6] == status && field(b, 7, 2) == port
        }),
        ({
            let b = verdict_bytes(allowed, port);
            &&& b.len() == 9 && b.take(6) == six_bytes()
            &&& allowed ==> b[6] == 0 && field(b, 7, 2) == port
            &&& !allowed ==> b[6] == 2 && field(b, 7, 2) == 0
        }),
{
    lemma_reply(status, port);
    lemma_reply(0, port);
    lemma_reply(2, 0);
}

proof fn lemma_reply(status: u8, port: u16)
    ensures
        ({
            let b = reply_bytes(status, port);
            &&& b.len() == 9 && b.take(6) == six_bytes()
            &&& b[6] == status && field(b, 7, 2) == port
        }),
{
    let buf = reply_bytes(status, port);
    lemma_six_bytes();
    lemma_pow256();
    assert(buf.take(6) =~= greeting());
    assert(buf.subrange(6, 7) =~= le_bytes(status as nat, 1));
    assert(buf.subrange(7, 9) =~= le_bytes(port as nat, 2));
    lemma_field(buf, 6, 1, status as nat);
    lemma_field(buf, 7, 2, port as nat);
    lemma_one_byte(buf, 6);
}

/// An answer of nine bytes that greets lets the transfer begin just where its seventh
/// byte is 0; any other byte is the reason of a refusal.
pub proof fn law_answer_is_told_by_one_byte(buf: Seq<u8>)
    requires
        buf.len() >= 9,
        buf.take(6) == six_bytes(),
    ensures
        buf[6] == 0 ==> reply_step(buf) == ReplyStep::Accepted(field(buf, 7, 2) as u16),
        buf[6] != 0 ==> reply_step(buf) == ReplyStep::Rejected(buf[6]),
{
    lemma_six_bytes();
    lemma_greeting_only(buf);
    lemma_one_byte(buf, 6);
}

/// A data stream opens with the six bytes and the token. It is taken just where it
/// does, and nothing is said before fourteen bytes are there.
pub proof fn law_stream_opens_with_the_token(given: u64, buf: Seq<u8>, token: u64)
    ensures
        ({
            let b = hello_bytes(given);
            &&& b.len() == 14 && b.take(6) == six_bytes()
            &&& field(b, 6, 8) == given
        }),
        hello_answer(buf, token) is None <==> buf.len() < 14,
        hello_answer(buf, token) == Some(0u8) <==> buf.len() >= 14 && buf.take(6) == six_bytes()
            && field(buf, 6, 8) == token,
        hello_answer(buf, token) is Some ==> hello_answer(buf, token)->0 <= 1,
{
    let b = hello_bytes(given);
    lemma_six_bytes();
    lemma_pow256();
    assert(b.take(6) =~= greeting());
    assert(b.subrange(6, 14) =~= le_bytes(given as nat, 8));
    lemma_field(b, 6, 8, given as nat);
    if buf.len() >= 14 {
        lemma_greeting_only(buf);
    }
}

/// A chunk has the number of its file first, then its place, its length and its bytes.
pub proof fn law_chunk_stands_in_order(file_idx: u64, offset: u64, data: Seq<u8>)
    requires
        data.len() <= u32::MAX,
    ensures
        ({
            let b = chunk_bytes(file_idx, offset, data);
            &&& b.len() == 20 + data.len()
            &&& field(b, 0, 8) == file_idx
            &&& field(b, 8, 8) == offset
            &&& field(b, 16, 4) == data.len()
            &&& b.skip(20) == data
        }),
{
    let b = chunk_bytes(file_idx, offset, data);
    lemma_pow256();
    assert(b.subrange(0, 8) =~= le_bytes(file_idx as nat, 8));
    assert(b.subrange(8, 16) =~= le_bytes(offset as nat, 8));
    assert(b.subrange(16, 20) =~= le_bytes(data.len(), 4));
    lemma_field(b, 0, 8, file_idx as nat);
    lemma_field(b, 8, 8, offset as nat);
    lemma_field(b, 16, 4, data.len());
    assert(b.skip(20) =~= data);
}

/// A chunk is taken just where its length is from 1 byte to 16 MiB.
pub proof fn law_only_chunks_of_good_length_are_taken(buf: Seq<u8>)
    ensures
        chunk_step(buf) == ChunkStep::Need(20) <==> buf.len() < 20,
        buf.len() >= 20 ==> {
            let len = field(buf, 16, 4);
            &&& chunk_step(buf) is BadLen <==> len == 0 || len > 0x100_0000
            &&& chunk_step(buf) is Head <==> 1 <= len <= 0x100_0000
            &&& chunk_step(buf) matches ChunkStep::Head { file_idx, offset, len: n } ==> {
                &&& file_idx == field(buf, 0, 8) as u64
                &&& offset == field(buf, 8, 8) as u64
                &&& n == len
            }
        },
{
}

/// The end of the entries is the byte 255, the number of hashes, and each file's
/// number with its hash.
pub proof fn law_end_stands_in_order(hashes: Seq<(u64, u64)>, i: int)
    requires
        hashes.len() <= u64::MAX,
    ensures
        ({
            let b = end_bytes(hashes);
            &&& b.len() == 9 + 16 * hashes.len()
            &&& b[0] == 255
            &&& field(b, 1, 8) == hashes.len()
            &&& 0 <= i < hashes.len() ==> field(b, 9 + 16 * i, 8) == hashes[i].0
            &&& 0 <= i < hashes.len() ==> field(b, 17 + 16 * i, 8) == hashes[i].1
        }),
{
    let b = end_bytes(hashes);
    let list = hash_list_bytes(hashes);
    lemma_pow256();
    lemma_hash_list_len(hashes);
    assert(b.subrange(0, 1) =~= le_bytes(255, 1));
    assert(b.subrange(1, 9) =~= le_bytes(hashes.len(), 8));
    lemma_field(b, 0, 1, 255);
    lemma_one_byte(b, 0);
    lemma_field(b, 1, 8, hashes.len());
    if 0 <= i < hashes.len() {
        let none = Seq::<u8>::empty();
        law_hashes_read_back(hashes, i, none);
        assert(list + none =~= list);
        assert(b.subrange(9 + 16 * i, 17 + 16 * i) =~= list.subrange(16 * i, 16 * i + 8));
        assert(b.subrange(17 + 16 * i, 25 + 16 * i) =~= list.subrange(16 * i + 8, 16 * i + 16));
    }
}

/// The receiver's last word is the byte 0 and its count. The sender takes it for a
/// success just where all nine bytes are there and are 0; a count that did not arrive
/// whole stands for 999.
pub proof fn law_last_word_is_told(mismatches: u64, buf: Seq<u8>)
    ensures
        ({
            let b = ack_bytes(mismatches);
            &&& b.len() == 9 && b[0] == 0 && field(b, 1, 8) == mismatches
        }),
        ack_outcome(buf) == AckOutcome::NoAnswer <==> buf.len() == 0,
        ack_outcome(buf) == AckOutcome::Success <==> buf.len() >= 9 && buf[0] == 0 && field(
            buf,
            1,
            8,
        ) == 0,
        1 <= buf.len() < 9 ==> ack_outcome(buf) == AckOutcome::Mismatches(999),
        buf.len() >= 9 && (buf[0] != 0 || field(buf, 1, 8) != 0) ==> ack_outcome(buf)
            == AckOutcome::Mismatches(field(buf, 1, 8) as u64),
{
    let b = ack_bytes(mismatches);
    lemma_pow256();
    assert(b.subrange(0, 1) =~= le_bytes(0, 1));
    assert(b.subrange(1, 9) =~= le_bytes(mismatches as nat, 8));
    lemma_field(b, 0, 1, 0);
    lemma_one_byte(b, 0);
    lemma_field(b, 1, 8, mismatches as nat);
    if buf.len() >= 1 {
        lemma_one_byte(buf, 0);
    }
}

} // verus!

//! The headers of entries on the control stream.

use vstd::prelude::*;
use vstd::slice::{slice_subrange, slice_to_vec};
use vstd::utf8::*;

use crate::messages::end_bytes;
use crate::outside::utf8_text;
use crate::protocol::{
    ENTRY_DIR,
    ENTRY_END,
    ENTRY_FILE_INLINE,
    ENTRY_FILE_SHARDED,
    F_COMPRESSED,
    MAX_INLINE,
    MAX_PATH_LEN,
};
use crate::wire::{
    field,
    law_le_write_back,
    le_bytes,
    lemma_field,
    lemma_le_bytes_len,
    lemma_le_value_bound,
    lemma_low_bytes,
    lemma_one_byte,
    lemma_pow256,
    read_u16,
    read_u32,
    read_u64,
    read_u8,
    write_u16,
    write_u32,
    write_u64,
    write_u8,
};

verus! {

broadcast use lemma_le_bytes_len;

/// What an entry is, with what only that sort of entry has.
#[derive(Clone, Copy, Debug, PartialEq, Eq, Structural)]
pub enum EntryKind {
    Dir,
    /// A file whose bytes follow the header, `wire_len` of them.
    Inline { hash: u64, wire_len: u64 },
    /// A file whose bytes come in chunks over the data streams.
    Sharded { nchunks: u32, csize: u32 },
}

/// The header of an entry.
#[derive(Debug)]
pub struct Entry {
    pub kind: EntryKind,
    pub flags: u8,
    pub rel: String,
    pub size: u64,
    pub mtime: u64,
    pub mode: u32,
}

/// The header of an entry, with its path as characters.
pub struct EntryView {
    pub kind: EntryKind,
    pub flags: u8,
    pub rel: Seq<char>,
    pub size: u64,
    pub mtime: u64,
    pub mode: u32,
}

impl View for Entry {
    type V = EntryView;

    open spec fn view(&self) -> EntryView {
        EntryView {
            kind: self.kind,
            flags: self.flags,
            rel: self.rel@,
            size: self.size,
            mtime: self.mtime,
            mode: self.mode,
        }
    }
}

/// Whether the flags say that the bytes of the file are compressed.
pub open spec fn compressed(flags: u8) -> bool {
    flags & F_COMPRESSED != 0
}

/// The byte that tells what an entry is.
pub open spec fn entry_type(kind: EntryKind) -> u8 {
    match kind {
        EntryKind::Dir => ENTRY_DIR,
        EntryKind::Inline { .. } => ENTRY_FILE_INLINE,
        EntryKind::Sharded { .. } => ENTRY_FILE_SHARDED,
    }
}

/// The part of a header that all entries have, up to the path.
pub open spec fn head_bytes(e: EntryView) -> Seq<u8> {
    le_bytes(entry_type(e.kind) as nat, 1) + le_bytes(e.flags as nat, 1) + le_bytes(
        encode_utf8(e.rel).len(),
        2,
    ) + encode_utf8(e.rel)
}

/// The part of a header that all entries have, behind the path.
pub open spec fn attribute_bytes(e: EntryView) -> Seq<u8> {
    le_bytes(e.size as nat, 8) + le_bytes(e.mtime as nat, 8) + le_bytes(e.mode as nat, 4)
}

/// The part of a header that only that sort of entry has.
pub open spec fn kind_bytes(e: EntryView) -> Seq<u8> {
    match e.kind {
        EntryKind::Dir => Seq::empty(),
        EntryKind::Inline { hash, wire_len } => {
            if compressed(e.flags) {
                le_bytes(hash as nat, 8) + le_bytes(wire_len as nat, 8)
            } else {
                le_bytes(hash as nat, 8)
            }
        },
        EntryKind::Sharded { nchunks, csize } => le_bytes(nchunks as nat, 4) + le_bytes(
            csize as nat,
            4,
        ),
    }
}

/// The header of an entry on the wire.
pub open spec fn entry_bytes(e: EntryView) -> Seq<u8> {
    head_bytes(e) + attribute_bytes(e) + kind_bytes(e)
}

/// The header of an entry on the wire.
pub fn encode_entry(e: &Entry) -> (r: Vec<u8>)
    ensures
        r@ == entry_bytes(e@),
{
    let mut r: Vec<u8> = Vec::new();
    let etype: u8 = match e.kind {
        EntryKind::Dir => ENTRY_DIR,
        EntryKind::Inline { .. } => ENTRY_FILE_INLINE,
        EntryKind::Sharded { .. } => ENTRY_FILE_SHARDED,
    };
    let path: &[u8] = e.rel.as_str().as_bytes();
    write_u8(&mut r, etype);
    write_u8(&mut r, e.flags);
    write_u16(&mut r, (path.len() % 0x1_0000) as u16);
    proof {
        lemma_low_bytes(path@.len(), 2);
        lemma_pow256();
    }
    r.extend_from_slice(path);
    assert(r@ =~= head_bytes(e@));
    write_u64(&mut r, e.size);
    write_u64(&mut r, e.mtime);
    write_u32(&mut r, e.mode);
    assert(r@ =~= head_bytes(e@) + attribute_bytes(e@));
    match e.kind {
        EntryKind::Dir => {},
        EntryKind::Inline { hash, wire_len } => {
            write_u64(&mut r, hash);
            if e.flags & F_COMPRESSED != 0 {
                write_u64(&mut r, wire_len);
            }
        },
        EntryKind::Sharded { nchunks, csize } => {
            write_u32(&mut r, nchunks);
            write_u32(&mut r, csize);
        },
    }
    assert(r@ =~= entry_bytes(e@));
    r
}

/// What the bytes of a header read so far amount to.
#[derive(Debug)]
pub enum EntryStep {
    /// This many bytes are needed from the start before more can be said.
    Need(usize),
    /// There are no more entries.
    End,
    /// No entry has this type.
    Unknown(u8),
    PathTooLong,
    BadUtf8,
    /// A file of this length cannot follow its header.
    TooBig(u64),
    /// A header, and how many bytes it takes up.
    Header { entry: Entry, used: usize },
}

/// What the bytes of a header read so far amount to, with its path as
/// characters.
pub enum EntryStepView {
    Need(nat),
    End,
    Unknown(u8),
    PathTooLong,
    BadUtf8,
    TooBig(u64),
    Header { entry: EntryView, used: nat },
}

impl View for EntryStep {
    type V = EntryStepView;

    open spec fn view(&self) -> EntryStepView {
        match *self {
            EntryStep::Need(n) => EntryStepView::Need(n as nat),
            EntryStep::End => EntryStepView::End,
            EntryStep::Unknown(t) => EntryStepView::Unknown(t),
            EntryStep::PathTooLong => EntryStepView::PathTooLong,
            EntryStep::BadUtf8 => EntryStepView::BadUtf8,
            EntryStep::TooBig(n) => EntryStepView::TooBig(n),
            EntryStep::Header { entry, used } => EntryStepView::Header {
                entry: entry@,
                used: used as nat,
            },
        }
    }
}

/// How long a header is whose type is `t`, whose flags are `flags` and whose
/// path takes `plen` bytes.
pub open spec fn header_len(t: u8, flags: u8, plen: nat) -> nat {
    if t == ENTRY_DIR {
        24 + plen
    } else if t == ENTRY_FILE_INLINE && compressed(flags) {
        40 + plen
    } else {
        32 + plen
    }
}

/// The header that complete bytes hold.
pub open spec fn header_at(buf: Seq<u8>) -> EntryView {
    let t = field(buf, 0, 1) as u8;
    let flags = field(buf, 1, 1) as u8;
    let p = 4 + field(buf, 2, 2) as int;
    let size = field(buf, p, 8) as u64;
    EntryView {
        kind: if t == ENTRY_DIR {
            EntryKind::Dir
        } else if t == ENTRY_FILE_INLINE {
            EntryKind::Inline {
                hash: field(buf, p + 20, 8) as u64,
                wire_len: if compressed(flags) {
                    field(buf, p + 28, 8) as u64
                } else {
                    size
                },
            }
        } else {
            EntryKind::Sharded {
                nchunks: field(buf, p + 20, 4) as u32,
                csize: field(buf, p + 24, 4) as u32,
            }
        },
        flags,
        rel: decode_utf8(buf.subrange(4, p)),
        size,
        mtime: field(buf, p + 8, 8) as u64,
        mode: field(buf, p + 16, 4) as u32,
    }
}

/// What the bytes of a header read so far amount to: each fault is named as soon
/// as the bytes show it.
pub open spec fn entry_step(buf: Seq<u8>) -> EntryStepView {
    let t = field(buf, 0, 1) as u8;
    let flags = field(buf, 1, 1) as u8;
    let plen = field(buf, 2, 2);
    if buf.len() < 1 {
        EntryStepView::Need(1)
    } else if t == ENTRY_END {
        EntryStepView::End
    } else if t != ENTRY_DIR && t != ENTRY_FILE_INLINE && t != ENTRY_FILE_SHARDED {
        EntryStepView::Unknown(t)
    } else if buf.len() < 4 {
        EntryStepView::Need(4)
    } else if plen > MAX_PATH_LEN {
        EntryStepView::PathTooLong
    } else if buf.len() < 4 + plen {
        EntryStepView::Need(4 + plen)
    } else if !valid_utf8(buf.subrange(4, 4 + plen as int)) {
        EntryStepView::BadUtf8
    } else if buf.len() < header_len(t, flags, plen) {
        EntryStepView::Need(header_len(t, flags, plen))
    } else {
        let e = header_at(buf);
        if e.kind matches EntryKind::Inline { wire_len, .. } && wire_len > MAX_INLINE {
            EntryStepView::TooBig(e.kind->wire_len)
        } else {
            EntryStepView::Header { entry: e, used: header_len(t, flags, plen) }
        }
    }
}

/// What the bytes of a header read so far amount to.
pub fn decode_entry(buf: &[u8]) -> (r: EntryStep)
    ensures
        r@ == entry_step(buf@),
{
    let t: u8 = match read_u8(buf, 0) {
        Some(t) => t,
        None => {
            return EntryStep::Need(1);
        },
    };
    if t == ENTRY_END {
        return EntryStep::End;
    }
    if t != ENTRY_DIR && t != ENTRY_FILE_INLINE && t != ENTRY_FILE_SHARDED {
        return EntryStep::Unknown(t);
    }
    let (flags, plen16): (u8, u16) = match (read_u8(buf, 1), read_u16(buf, 2)) {
        (Some(f), Some(n)) => (f, n),
        _ => {
            return EntryStep::Need(4);
        },
    };
    let plen: usize = plen16 as usize;
    if plen > MAX_PATH_LEN {
        return EntryStep::PathTooLong;
    }
    let p: usize = 4 + plen;
    if buf.len() < p {
        return EntryStep::Need(p);
    }
    let rel: String = match utf8_text(slice_to_vec(slice_subrange(buf, 4, p))) {
        Some(s) => s,
        None => {
            return EntryStep::BadUtf8;
        },
    };
    proof {
        encode_utf8_decode_utf8(rel@);
    }
    let used: usize = if t == ENTRY_DIR {
        24 + plen
    } else if t == ENTRY_FILE_INLINE && flags & F_COMPRESSED != 0 {
        40 + plen
    } else {
        32 + plen
    };
    if buf.len() < used {
        return EntryStep::Need(used);
    }
    let (size, mtime, mode): (u64, u64, u32) = match (
        read_u64(buf, p),
        read_u64(buf, p + 8),
        read_u32(buf, p + 16),
    ) {
        (Some(s), Some(m), Some(o)) => (s, m, o),
        _ => {
            return EntryStep::Need(used);
        },
    };
    if t == ENTRY_DIR {
        return EntryStep::Header {
            entry: Entry { kind: EntryKind::Dir, flags, rel, size, mtime, mode },
            used,
        };
    }
    if t == ENTRY_FILE_SHARDED {
        return match (read_u32(buf, p + 20), read_u32(buf, p + 24)) {
            (Some(nchunks), Some(csize)) => EntryStep::Header {
                entry: Entry {
                    kind: EntryKind::Sharded { nchunks, csize },
                    flags,
                    rel,
                    size,
                    mtime,
                    mode,
                },
                used,
            },
            _ => EntryStep::Need(used),
        };
    }
    let hash: u64 = match read_u64(buf, p + 20) {
        Some(h) => h,
        None => {
            return EntryStep::Need(used);
        },
    };
    let wire_len: u64 = if flags & F_COMPRESSED != 0 {
        match read_u64(buf, p + 28) {
            Some(n) => n,
            None => {
                return EntryStep::Need(used);
            },
        }
    } else {
        size
    };
    if wire_len > MAX_INLINE {
        return EntryStep::TooBig(wire_len);
    }
    EntryStep::Header {
        entry: Entry {
            kind: EntryKind::Inline { hash, wire_len },
            flags,
            rel,
            size,
            mtime,
            mode,
        },
        used,
    }
}

/// Whether a receiver takes the header: its path is not too long, and a file
/// that follows its header is not too big and is as long as its header says.
pub open spec fn sendable(e: EntryView) -> bool {
    &&& encode_utf8(e.rel).len() <= MAX_PATH_LEN
    &&& e.kind matches EntryKind::Inline { wire_len, .. } ==> wire_len <= MAX_INLINE && (
    !compressed(e.flags) ==> wire_len == e.size)
}

proof fn lemma_head(e: EntryView, buf: Seq<u8>)
    requires
        encode_utf8(e.rel).len() <= MAX_PATH_LEN,
        buf.len() >= head_bytes(e).len(),
        buf.take(head_bytes(e).len() as int) == head_bytes(e),
    ensures
        field(buf, 0, 1) == entry_type(e.kind),
        field(buf, 1, 1) == e.flags,
        field(buf, 2, 2) == encode_utf8(e.rel).len(),
        buf.subrange(4, 4 + field(buf, 2, 2) as int) == encode_utf8(e.rel),
{
    lemma_pow256();
    let h = head_bytes(e);
    let n = encode_utf8(e.rel).len();
    assert(h.len() == 4 + n);
    assert(buf.subrange(0, 1) =~= buf.take(h.len() as int).subrange(0, 1));
    assert(h.subrange(0, 1) =~= le_bytes(entry_type(e.kind) as nat, 1));
    assert(buf.subrange(1, 2) =~= buf.take(h.len() as int).subrange(1, 2));
    assert(h.subrange(1, 2) =~= le_bytes(e.flags as nat, 1));
    assert(buf.subrange(2, 4) =~= buf.take(h.len() as int).subrange(2, 4));
    assert(h.subrange(2, 4) =~= le_bytes(n, 2));
    lemma_field(buf, 0, 1, entry_type(e.kind) as nat);
    lemma_field(buf, 1, 1, e.flags as nat);
    lemma_field(buf, 2, 2, n);
    assert(buf.subrange(4, 4 + n as int) =~= buf.take(h.len() as int).subrange(4, 4 + n as int));
    assert(h.subrange(4, 4 + n as int) =~= encode_utf8(e.rel));
}

/// A header reads back as it was written, whatever bytes follow it, and takes up
/// just the bytes written.
pub proof fn law_entry_read_back(e: EntryView, rest: Seq<u8>)
    requires
        sendable(e),
    ensures
        entry_step(entry_bytes(e) + rest) == (EntryStepView::Header {
            entry: e,
            used: entry_bytes(e).len(),
        }),
{
    let buf = entry_bytes(e) + rest;
    let h = head_bytes(e);
    let n = encode_utf8(e.rel).len();
    let p = 4 + n as int;
    assert(buf.take(h.len() as int) =~= h);
    lemma_head(e, buf);
    encode_utf8_valid_utf8(e.rel);
    encode_utf8_decode_utf8(e.rel);
    lemma_pow256();
    assert(buf.subrange(p, p + 8) =~= le_bytes(e.size as nat, 8));
    assert(buf.subrange(p + 8, p + 16) =~= le_bytes(e.mtime as nat, 8));
    assert(buf.subrange(p + 16, p + 20) =~= le_bytes(e.mode as nat, 4));
    lemma_field(buf, p, 8, e.size as nat);
    lemma_field(buf, p + 8, 8, e.mtime as nat);
    lemma_field(buf, p + 16, 4, e.mode as nat);
    match e.kind {
        EntryKind::Dir => {},
        EntryKind::Inline { hash, wire_len } => {
            assert(buf.subrange(p + 20, p + 28) =~= le_bytes(hash as nat, 8));
            lemma_field(buf, p + 20, 8, hash as nat);
            if compressed(e.flags) {
                assert(buf.subrange(p + 28, p + 36) =~= le_bytes(wire_len as nat, 8));
                lemma_field(buf, p + 28, 8, wire_len as nat);
            }
        },
        EntryKind::Sharded { nchunks, csize } => {
            assert(buf.subrange(p + 20, p + 24) =~= le_bytes(nchunks as nat, 4));
            assert(buf.subrange(p + 24, p + 28) =~= le_bytes(csize as nat, 4));
            lemma_field(buf, p + 20, 4, nchunks as nat);
            lemma_field(buf, p + 24, 4, csize as nat);
        },
    }
    assert(header_at(buf).rel =~= e.rel);
    assert(header_at(buf) == e);
}

/// While a header is incomplete, the receiver asks for more bytes, and never for
/// more than the header has: no byte behind it is read with it.
pub proof fn law_entry_is_not_read_past(e: EntryView, n: int)
    requires
        sendable(e),
        0 <= n < entry_bytes(e).len(),
    ensures
        entry_step(entry_bytes(e).take(n)) matches EntryStepView::Need(m) && n < m
            <= entry_bytes(e).len(),
{
    let all = entry_bytes(e);
    let buf = all.take(n);
    let h = head_bytes(e);
    lemma_pow256();
    assert(all.take(h.len() as int) =~= h);
    lemma_head(e, all);
    encode_utf8_valid_utf8(e.rel);
    if n >= 1 {
        assert(buf.subrange(0, 1) =~= all.subrange(0, 1));
    }
    if n >= 4 {
        assert(buf.subrange(1, 2) =~= all.subrange(1, 2));
        assert(buf.subrange(2, 4) =~= all.subrange(2, 4));
        if n >= h.len() {
            assert(buf.take(h.len() as int) =~= h);
            lemma_head(e, buf);
        }
    }
}

/// The end of the entries is known by its first byte.
pub proof fn law_end_is_seen(hashes: Seq<(u64, u64)>, rest: Seq<u8>)
    ensures
        entry_step(end_bytes(hashes) + rest) == EntryStepView::End,
{
    let buf = end_bytes(hashes) + rest;
    lemma_pow256();
    assert(buf.subrange(0, 1) =~= le_bytes(ENTRY_END as nat, 1));
    lemma_field(buf, 0, 1, ENTRY_END as nat);
}

/// Whatever bytes arrive, a header that is taken is one that a sender may send,
/// and lies within the bytes.
pub proof fn law_taken_header_is_sendable(buf: Seq<u8>)
    ensures
        entry_step(buf) matches EntryStepView::Header { entry, used } ==> sendable(entry) && used
            <= buf.len(),
{
    if entry_step(buf) is Header {
        let p = 4 + field(buf, 2, 2) as int;
        decode_utf8_encode_utf8(buf.subrange(4, p));
        lemma_pow256();
        lemma_le_value_bound(buf.subrange(p, p + 8));
    }
}

/// In a header the sort of the entry stands first (0 a folder, 1 a file that follows,
/// 2 a file in chunks), then its flags, the length of its path, the path, the size, the
/// time and the mode, and then what only that sort has.
pub proof fn law_header_stands_in_order(e: EntryView)
    requires
        encode_utf8(e.rel).len() <= 0xFFFF,
    ensures
        ({
            let b = entry_bytes(e);
            let p = 4 + encode_utf8(e.rel).len() as int;
            &&& e.kind is Dir ==> b[0] == 0 && b.len() == p + 20
            &&& e.kind is Inline ==> b[0] == 1 && field(b, p + 20, 8) == e.kind->hash
            &&& e.kind is Inline && e.flags & 1 == 0 ==> b.len() == p + 28
            &&& e.kind is Inline && e.flags & 1 != 0 ==> b.len() == p + 36 && field(b, p + 28, 8)
                == e.kind->wire_len
            &&& e.kind is Sharded ==> b[0] == 2 && b.len() == p + 28
            &&& e.kind is Sharded ==> field(b, p + 20, 4) == e.kind->nchunks && field(b, p + 24, 4)
                == e.kind->csize
            &&& b[1] == e.flags
            &&& field(b, 2, 2) == p - 4
            &&& b.subrange(4, p) == encode_utf8(e.rel)
            &&& field(b, p, 8) == e.size
            &&& field(b, p + 8, 8) == e.mtime
            &&& field(b, p + 16, 4) == e.mode
        }),
{
    let b = entry_bytes(e);
    let n = encode_utf8(e.rel).len();
    let p = 4 + n as int;
    lemma_pow256();
    assert(b.subrange(0, 1) =~= le_bytes(entry_type(e.kind) as nat, 1));
    assert(b.subrange(1, 2) =~= le_bytes(e.flags as nat, 1));
    assert(b.subrange(2, 4) =~= le_bytes(n, 2));
    assert(b.subrange(4, p) =~= encode_utf8(e.rel));
    lemma_field(b, 0, 1, entry_type(e.kind) as nat);
    lemma_field(b, 1, 1, e.flags as nat);
    lemma_field(b, 2, 2, n);
    lemma_one_byte(b, 0);
    lemma_one_byte(b, 1);
    assert(b.subrange(p, p + 8) =~= le_bytes(e.size as nat, 8));
    assert(b.subrange(p + 8, p + 16) =~= le_bytes(e.mtime as nat, 8));
    assert(b.subrange(p + 16, p + 20) =~= le_bytes(e.mode as nat, 4));
    lemma_field(b, p, 8, e.size as nat);
    lemma_field(b, p + 8, 8, e.mtime as nat);
    lemma_field(b, p + 16, 4, e.mode as nat);
    match e.kind {
        EntryKind::Dir => {},
        EntryKind::Inline { hash, wire_len } => {
            assert(b.subrange(p + 20, p + 28) =~= le_bytes(hash as nat, 8));
            lemma_field(b, p + 20, 8, hash as nat);
            if compressed(e.flags) {
                assert(b.subrange(p + 28, p + 36) =~= le_bytes(wire_len as nat, 8));
                lemma_field(b, p + 28, 8, wire_len as nat);
            }
        },
        EntryKind::Sharded { nchunks, csize } => {
            assert(b.subrange(p + 20, p + 24) =~= le_bytes(nchunks as nat, 4));
            assert(b.subrange(p + 24, p + 28) =~= le_bytes(csize as nat, 4));
            lemma_field(b, p + 20, 4, nchunks as nat);
            lemma_field(b, p + 24, 4, csize as nat);
        },
    }
}

/// A header is refused for a cause alone: a first byte that stands for nothing, a path
/// of more than 16 KiB or one that is no text, or a file of more than 256 MiB that is to
/// follow. The byte 255 ends the entries.
pub proof fn law_headers_are_refused_for_cause(buf: Seq<u8>)
    requires
        buf.len() >= 1,
    ensures
        ({
            let plen = field(buf, 2, 2);
            let sort = buf[0] <= 2;
            let step = entry_step(buf);
            &&& step is End <==> buf[0] == 255
            &&& step is Unknown <==> 2 < buf[0] < 255
            &&& step is Unknown ==> step == EntryStepView::Unknown(buf[0])
            &&& step is PathTooLong <==> sort && buf.len() >= 4 && plen > 16384
            &&& step is BadUtf8 <==> sort && 4 + plen <= buf.len() && buf.len() >= 4 && plen
                <= 16384 && !valid_utf8(buf.subrange(4, 4 + plen as int))
            &&& step is TooBig ==> buf[0] == 1 && step->TooBig_0 > 0x1000_0000
            &&& step is Header ==> sort
        }),
{
    lemma_one_byte(buf, 0);
}

/// A header that is taken is the one that was sent: written again, it gives the bytes
/// that it was taken from.
pub proof fn law_taken_header_is_what_came(buf: Seq<u8>)
    ensures
        entry_step(buf) matches EntryStepView::Header { entry, used } ==> entry_bytes(entry)
            == buf.take(used as int),
{
    if entry_step(buf) is Header {
        let e = header_at(buf);
        let n = field(buf, 2, 2);
        let p = 4 + n as int;
        let b = entry_bytes(e);
        decode_utf8_encode_utf8(buf.subrange(4, p));
        lemma_field_back(buf, 0, 1);
        lemma_field_back(buf, 1, 1);
        lemma_field_back(buf, 2, 2);
        lemma_field_back(buf, p, 8);
        lemma_field_back(buf, p + 8, 8);
        lemma_field_back(buf, p + 16, 4);
        let head = head_bytes(e);
        assert(head =~= buf.subrange(0, p));
        assert(attribute_bytes(e) =~= buf.subrange(p, p + 20));
        match e.kind {
            EntryKind::Dir => {
                assert(b =~= buf.take(p + 20));
            },
            EntryKind::Inline { .. } => {
                lemma_field_back(buf, p + 20, 8);
                if compressed(e.flags) {
                    lemma_field_back(buf, p + 28, 8);
                    assert(kind_bytes(e) =~= buf.subrange(p + 20, p + 36));
                    assert(b =~= buf.take(p + 36));
                } else {
                    assert(kind_bytes(e) =~= buf.subrange(p + 20, p + 28));
                    assert(b =~= buf.take(p + 28));
                }
            },
            EntryKind::Sharded { .. } => {
                lemma_field_back(buf, p + 20, 4);
                lemma_field_back(buf, p + 24, 4);
                assert(kind_bytes(e) =~= buf.subrange(p + 20, p + 28));
                assert(b =~= buf.take(p + 28));
            },
        }
    }
}

proof fn lemma_field_back(buf: Seq<u8>, pos: int, n: nat)
    requires
        0 <= pos,
        pos + n <= buf.len(),
        n <= 8,
    ensures
        le_bytes(field(buf, pos, n), n) == buf.subrange(pos, pos + n),
        n == 1 ==> field(buf, pos, n) <= u8::MAX,
        n == 2 ==> field(buf, pos, n) <= u16::MAX,
        n == 4 ==> field(buf, pos, n) <= u32::MAX,
        n == 8 ==> field(buf, pos, n) <= u64::MAX,
{
    lemma_pow256();
    law_le_write_back(buf.subrange(pos, pos + n));
    lemma_le_value_bound(buf.subrange(pos, pos + n));
}

} // verus!

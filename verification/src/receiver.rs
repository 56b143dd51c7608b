//! The receiving side: what is done with each entry, and what is answered.

use std::collections::HashMap;

use vstd::prelude::*;
use xxhash_rust::xxh3::Xxh3;

use crate::entry::{compressed, Entry, EntryKind, EntryView};
use crate::messages::{ack_bytes, encode_ack, Handshake};
use crate::outside::{absorbed, can_unpack, content_hash, lz4_content, unpackable};
use crate::path::{destination, wire_to_path, PathError};
use crate::progress::{
    done_report,
    error_report,
    mismatch_text,
    mismatch_words,
    report_done,
    report_error,
    report_status,
    status_report,
    TransferUpdate,
    UpdateView,
};
use crate::protocol::{F_COMPRESSED, H_CHECKSUM, H_OVERWRITE, INLINE_MEM_LIMIT};
use crate::text::texts;

verus! {

/// What a receiver listens with.
#[derive(Clone, Debug)]
pub struct RecvOptions {
    pub bind: String,
    pub port: u16,
    pub out: String,
    pub overwrite: bool,
}

/// A sharded file that is arriving.
#[derive(Debug)]
pub struct ArrivingFile {
    /// The index of its entry.
    pub idx: u64,
    pub dest: Vec<String>,
    pub size: u64,
    pub received: u64,
    pub mtime: u64,
    /// Whether a file that was there stays as it is: its chunks are dropped.
    pub kept: bool,
}

/// A sharded file that is arriving, with its place as characters.
pub struct ArrivingView {
    pub idx: u64,
    pub dest: Seq<Seq<char>>,
    pub size: u64,
    pub received: u64,
    pub mtime: u64,
    /// Whether a file that was there stays as it is: its chunks are dropped.
    pub kept: bool,
}

impl View for ArrivingFile {
    type V = ArrivingView;

    open spec fn view(&self) -> ArrivingView {
        ArrivingView {
            idx: self.idx,
            dest: texts(self.dest@),
            size: self.size,
            received: self.received,
            mtime: self.mtime,
            kept: self.kept,
        }
    }
}

/// How far the receiving of a transfer has come.
#[derive(Debug)]
pub struct RecvSession {
    pub checksum: bool,
    pub overwrite: bool,
    pub total: u64,
    /// How many bytes have arrived, counted in 64 bits.
    pub sent: u64,
    /// Which entry comes next.
    pub idx: u64,
    pub mismatches: u64,
    pub shards: Vec<ArrivingFile>,
}

/// How far the receiving of a transfer has come.
pub struct RecvState {
    pub checksum: bool,
    pub overwrite: bool,
    pub total: u64,
    pub sent: u64,
    pub idx: u64,
    pub mismatches: u64,
    pub shards: Seq<ArrivingView>,
}

/// The arriving files as seen by contracts.
pub open spec fn arriving(shards: Seq<ArrivingFile>) -> Seq<ArrivingView> {
    shards.map_values(|f: ArrivingFile| f@)
}

impl View for RecvSession {
    type V = RecvState;

    open spec fn view(&self) -> RecvState {
        RecvState {
            checksum: self.checksum,
            overwrite: self.overwrite,
            total: self.total,
            sent: self.sent,
            idx: self.idx,
            mismatches: self.mismatches,
            shards: arriving(self.shards@),
        }
    }
}

impl RecvState {
    /// What holds of a transfer at every step: each arriving file has the index
    /// of an entry that was read, and they stand in the order of the entries.
    pub open spec fn wf(self) -> bool {
        &&& forall|i: int| 0 <= i < self.shards.len() ==> (#[trigger] self.shards[i]).idx < self.idx
        &&& forall|i: int, j: int|
            0 <= i < j < self.shards.len() ==> (#[trigger] self.shards[i]).idx < (
            #[trigger] self.shards[j]).idx
    }

    /// Whether one more entry can be counted.
    pub open spec fn has_room(self) -> bool {
        self.idx < u64::MAX && self.mismatches <= u64::MAX - 2
    }
}

proof fn lemma_wf_kept(a: RecvState, b: RecvState)
    requires
        a.wf(),
        a.shards == b.shards,
        a.idx <= b.idx,
    ensures
        b.wf(),
{
}

/// A sum that is counted in 64 bits.
pub open spec fn counted(a: u64, n: u64) -> u64 {
    if a + n > u64::MAX {
        (a + n - 0x1_0000_0000_0000_0000) as u64
    } else {
        (a + n) as u64
    }
}

/// The state in which a transfer starts. Existing files are overwritten where
/// either side asks for it.
pub open spec fn recv_start(h: Handshake, overwrite: bool) -> RecvState {
    RecvState {
        checksum: h.flags & H_CHECKSUM != 0,
        overwrite: overwrite || h.flags & H_OVERWRITE != 0,
        total: h.total,
        sent: 0,
        idx: 0,
        mismatches: 0,
        shards: Seq::empty(),
    }
}

/// What has to be done about the header of an entry.
#[derive(Debug)]
pub enum HeaderAction {
    /// Make a directory, and set its time where one is given.
    MakeDir { dest: Vec<String>, mtime: Option<u64> },
    /// Read this many bytes behind the header.
    ReadPayload { len: u64 },
    /// Make room for a file whose bytes come over the data streams.
    PlaceShard { dest: Vec<String> },
}

/// A time that is set: none where none was sent.
pub open spec fn time_to_set(mtime: u64) -> Option<u64> {
    if mtime == 0 {
        None
    } else {
        Some(mtime)
    }
}

fn time_of(mtime: u64) -> (r: Option<u64>)
    ensures
        r == time_to_set(mtime),
{
    if mtime == 0 {
        None
    } else {
        Some(mtime)
    }
}

/// The state after an entry that leaves nothing open.
pub open spec fn after_entry(s: RecvState) -> RecvState {
    RecvState { idx: (s.idx + 1) as u64, ..s }
}

/// The state after room was made for a sharded file, or the file that was there
/// is kept.
pub open spec fn after_shard_placed(
    s: RecvState,
    dest: Seq<Seq<char>>,
    size: u64,
    mtime: u64,
    kept: bool,
) -> RecvState {
    RecvState {
        idx: (s.idx + 1) as u64,
        shards: s.shards.push(ArrivingView { idx: s.idx, dest, size, received: 0, mtime, kept }),
        ..s
    }
}

/// The bytes of a file, from those behind its header; `None` where they are no
/// block though the header says so.
pub open spec fn arrived(e: EntryView, payload: Seq<u8>) -> Option<Seq<u8>> {
    if compressed(e.flags) {
        lz4_content(payload)
    } else {
        Some(payload)
    }
}

/// The hash that the header of a file promises, 0 where it promises none.
pub open spec fn promised(e: EntryView) -> u64 {
    match e.kind {
        EntryKind::Inline { hash, .. } => hash,
        _ => 0,
    }
}

/// How many mismatches a file with these bytes and this hash counts for: one
/// where its length is not that of the header, and one where its hash is checked
/// and is not that of the header.
pub open spec fn faults(e: EntryView, len: nat, digest: u64, checksum: bool) -> nat {
    (if len != e.size {
        1nat
    } else {
        0nat
    }) + (if checksum && promised(e) != 0 && digest != promised(e) {
        1nat
    } else {
        0nat
    })
}

/// The state after a file that came on the control stream.
pub open spec fn after_file(s: RecvState, e: EntryView, len: nat, digest: u64) -> RecvState {
    RecvState {
        idx: (s.idx + 1) as u64,
        sent: counted(s.sent, e.size),
        mismatches: (s.mismatches + faults(e, len, digest, s.checksum)) as u64,
        ..s
    }
}

/// What has to be done with a file that came on the control stream.
#[derive(Debug)]
pub struct FileAction {
    pub dest: Vec<String>,
    pub content: Vec<u8>,
    pub mtime: Option<u64>,
    /// Whether the file is small enough to be written while more is read.
    pub pipelined: bool,
    pub update: TransferUpdate,
}

/// Whether `a` puts the bytes where the header says.
pub open spec fn places(a: FileAction, s: RecvState, e: EntryView, content: Seq<u8>) -> bool {
    &&& destination(e.rel) == Ok::<Seq<Seq<char>>, PathError>(texts(a.dest@))
    &&& a.content@ == content
    &&& a.mtime == time_to_set(e.mtime)
    &&& a.pipelined == (content.len() <= INLINE_MEM_LIMIT)
    &&& a.update@ == status_report(counted(s.sent, e.size), s.total, e.rel)
}

/// Why a file that came on the control stream ends the transfer.
#[derive(Clone, Copy, Debug, PartialEq, Eq, Structural)]
pub enum FileError {
    /// Its bytes are no block, though the header says so.
    BadBlock,
    /// Its bytes cannot be tried as a block.
    UntriedBlock,
    /// Its path leads nowhere.
    Path(PathError),
}

/// What is done about the place of a sharded file.
#[derive(Clone, Copy, Debug, PartialEq, Eq, Structural)]
pub enum ShardPlace {
    /// Create the file, or empty it, and give it its length.
    Create,
    /// Leave the existing file as it is.
    Keep,
}

/// What is done about the place of a sharded file: one that exists is skipped,
/// unless it is to be overwritten.
pub open spec fn shard_place(overwrite: bool, exists_already: bool) -> ShardPlace {
    if overwrite || !exists_already {
        ShardPlace::Create
    } else {
        ShardPlace::Keep
    }
}

/// Where a chunk goes.
#[derive(Clone, Copy, Debug, PartialEq, Eq, Structural)]
pub enum ChunkPlace {
    /// Its file is not known yet.
    Wait,
    /// To the arriving file at this position.
    Write(usize),
    /// Nowhere: the arriving file at this position is kept as it was. The chunk is
    /// counted all the same.
    Drop(usize),
}

/// The state after a chunk of the arriving file at position `i` was written or
/// dropped.
pub open spec fn after_chunk_written(s: RecvState, i: int, len: u64) -> RecvState {
    RecvState {
        sent: counted(s.sent, len),
        shards: s.shards.update(
            i,
            ArrivingView { received: counted(s.shards[i].received, len), ..s.shards[i] },
        ),
        ..s
    }
}

/// Whether all of each sharded file has arrived.
pub open spec fn all_arrived(s: RecvState) -> bool {
    forall|i: int|
        0 <= i < s.shards.len() ==> (#[trigger] s.shards[i]).received >= s.shards[i].size
}

/// The hash that the end of the entries promises for the arriving file at
/// position `i`, where it is to be checked.
pub open spec fn to_verify(s: RecvState, hashes: Map<u64, u64>, i: int) -> Option<u64> {
    if s.checksum && !s.shards[i].kept && hashes.dom().contains(s.shards[i].idx)
        && hashes[s.shards[i].idx] != 0 {
        Some(hashes[s.shards[i].idx])
    } else {
        None
    }
}

/// The state after the hash of a sharded file was taken; `None` where the file
/// could not be read.
pub open spec fn after_verify(s: RecvState, expected: u64, digest: Option<u64>) -> RecvState {
    if digest == Some(expected) {
        s
    } else {
        RecvState { mismatches: (s.mismatches + 1) as u64, ..s }
    }
}

/// The last report of a transfer.
pub open spec fn closing_report(s: RecvState, label: Seq<char>) -> UpdateView {
    if s.mismatches == 0 {
        let most = if s.sent > s.total {
            s.sent
        } else {
            s.total
        };
        done_report(most, most, label)
    } else {
        error_report(s.sent, s.total, mismatch_words(s.mismatches as nat))
    }
}

impl RecvSession {
    /// A transfer that is about to start, after its handshake.
    pub fn start(h: &Handshake, overwrite: bool) -> (r: RecvSession)
        ensures
            r@ == recv_start(*h, overwrite),
            r@.wf(),
    {
        let r = RecvSession {
            checksum: h.flags & H_CHECKSUM != 0,
            overwrite: overwrite || h.flags & H_OVERWRITE != 0,
            total: h.total,
            sent: 0,
            idx: 0,
            mismatches: 0,
            shards: Vec::new(),
        };
        assert(r@.shards =~= Seq::empty());
        r
    }

    /// Whether one more entry can be counted.
    pub fn can_count(&self) -> (r: bool)
        ensures
            r == self@.has_room(),
    {
        self.idx < u64::MAX && self.mismatches <= u64::MAX - 2
    }

    /// What has to be done about the header of an entry. A directory is settled
    /// with that; a file is not.
    pub fn on_header(&mut self, e: &Entry) -> (r: Result<HeaderAction, PathError>)
        requires
            old(self)@.wf(),
            old(self)@.has_room(),
        ensures
            match e.kind {
                EntryKind::Dir => match destination(e.rel@) {
                    Ok(parts) => final(self)@ == after_entry(old(self)@) && (r matches Ok(
                        HeaderAction::MakeDir { dest, mtime },
                    ) && texts(dest@) == parts && mtime == time_to_set(e.mtime)),
                    Err(f) => r == Err::<HeaderAction, PathError>(f) && final(self)@ == old(self)@,
                },
                EntryKind::Inline { wire_len, .. } => final(self)@ == old(self)@ && (r matches Ok(
                    HeaderAction::ReadPayload { len },
                ) && len == wire_len),
                EntryKind::Sharded { .. } => final(self)@ == old(self)@ && match destination(
                    e.rel@,
                ) {
                    Ok(parts) => r matches Ok(HeaderAction::PlaceShard { dest }) && texts(dest@)
                        == parts,
                    Err(f) => r == Err::<HeaderAction, PathError>(f),
                },
            },
            final(self)@.wf(),
    {
        match e.kind {
            EntryKind::Dir => {
                match wire_to_path(e.rel.as_str()) {
                    Ok(dest) => {
                        self.idx = self.idx + 1;
                        proof {
                            lemma_wf_kept(old(self)@, self@);
                        }
                        Ok(HeaderAction::MakeDir { dest, mtime: time_of(e.mtime) })
                    },
                    Err(f) => Err(f),
                }
            },
            EntryKind::Inline { wire_len, .. } => Ok(HeaderAction::ReadPayload { len: wire_len }),
            EntryKind::Sharded { .. } => {
                match wire_to_path(e.rel.as_str()) {
                    Ok(dest) => Ok(HeaderAction::PlaceShard { dest }),
                    Err(f) => Err(f),
                }
            },
        }
    }

    /// Settles a file that came on the control stream, by its bytes and by their
    /// hash.
    pub fn settle_file(&mut self, e: &Entry, content: Vec<u8>, digest: u64) -> (r: Result<
        FileAction,
        PathError,
    >)
        requires
            old(self)@.wf(),
            old(self)@.has_room(),
        ensures
            match destination(e.rel@) {
                Ok(parts) => final(self)@ == after_file(old(self)@, e@, content@.len(), digest) && (
                r matches Ok(a) && places(a, old(self)@, e@, content@)),
                Err(f) => r == Err::<FileAction, PathError>(f) && final(self)@ == old(self)@,
            },
            final(self)@.wf(),
    {
        let dest = match wire_to_path(e.rel.as_str()) {
            Ok(dest) => dest,
            Err(f) => {
                return Err(f);
            },
        };
        let len: u64 = content.len() as u64;
        if len != e.size {
            self.mismatches = self.mismatches + 1;
        }
        let expected: u64 = match e.kind {
            EntryKind::Inline { hash, .. } => hash,
            _ => 0,
        };
        if self.checksum && expected != 0 && digest != expected {
            self.mismatches = self.mismatches + 1;
        }
        self.sent = self.sent.wrapping_add(e.size);
        self.idx = self.idx + 1;
        proof {
            lemma_wf_kept(old(self)@, self@);
        }
        let update = report_recv_progress(self, e.rel.as_str());
        Ok(
            FileAction {
                dest,
                content,
                mtime: time_of(e.mtime),
                pipelined: len <= INLINE_MEM_LIMIT,
                update,
            },
        )
    }

    /// Takes the bytes behind the header of a file.
    pub fn on_payload(&mut self, e: &Entry, payload: Vec<u8>) -> (r: Result<FileAction, FileError>)
        requires
            old(self)@.wf(),
            old(self)@.has_room(),
        ensures
            if compressed(e.flags) && !unpackable(payload@) {
                r == Err::<FileAction, FileError>(FileError::UntriedBlock) && final(self)@
                    == old(self)@
            } else {
                match arrived(e@, payload@) {
                    None => r == Err::<FileAction, FileError>(FileError::BadBlock) && final(self)@
                        == old(self)@,
                    Some(content) => match destination(e.rel@) {
                        Err(f) => {
                            &&& r == Err::<FileAction, FileError>(FileError::Path(f))
                            &&& final(self)@ == old(self)@
                        },
                        Ok(parts) => final(self)@ == after_file(
                            old(self)@,
                            e@,
                            content.len(),
                            content_hash(content),
                        ) && (r matches Ok(a) && places(a, old(self)@, e@, content)),
                    },
                }
            },
            final(self)@.wf(),
    {
        let content: Vec<u8> = if e.flags & F_COMPRESSED != 0 {
            if !can_unpack(payload.as_slice()) {
                return Err(FileError::UntriedBlock);
            }
            match lz4_flex::decompress_size_prepended(payload.as_slice()) {
                Ok(data) => data,
                Err(_) => {
                    return Err(FileError::BadBlock);
                },
            }
        } else {
            payload
        };
        let expected: u64 = match e.kind {
            EntryKind::Inline { hash, .. } => hash,
            _ => 0,
        };
        let digest: u64 = if self.checksum && expected != 0 {
            xxhash_rust::xxh3::xxh3_64(content.as_slice())
        } else {
            0
        };
        match self.settle_file(e, content, digest) {
            Ok(a) => Ok(a),
            Err(f) => Err(FileError::Path(f)),
        }
    }

    /// Whether a file is written: one that exists only where it is to be
    /// overwritten.
    pub fn writes(&self, exists_already: bool) -> (r: bool)
        ensures
            r == (self@.overwrite || !exists_already),
    {
        self.overwrite || !exists_already
    }

    /// What is done about the place of a sharded file.
    pub fn place_shard(&self, exists_already: bool) -> (r: ShardPlace)
        ensures
            r == shard_place(self@.overwrite, exists_already),
    {
        if self.overwrite || !exists_already {
            ShardPlace::Create
        } else {
            ShardPlace::Keep
        }
    }

    /// Lets the chunks of a sharded file in, once there is room for it, or once it
    /// is known that the file that was there is kept.
    pub fn shard_placed(&mut self, dest: Vec<String>, size: u64, mtime: u64, kept: bool)
        requires
            old(self)@.wf(),
            old(self)@.has_room(),
        ensures
            final(self)@ == after_shard_placed(old(self)@, texts(dest@), size, mtime, kept),
            final(self)@.wf(),
    {
        let ghost before = self.shards@;
        let f = ArrivingFile { idx: self.idx, dest, size, received: 0, mtime, kept };
        self.shards.push(f);
        self.idx = self.idx + 1;
        proof {
            assert(arriving(self.shards@) =~= arriving(before).push(f@));
            let (a, b) = (old(self)@, self@);
            assert(b == after_shard_placed(a, texts(dest@), size, mtime, kept));
            assert forall|i: int| 0 <= i < b.shards.len() implies (#[trigger] b.shards[i]).idx
                < b.idx by {
                if i < a.shards.len() {
                    assert(b.shards[i] == a.shards[i]);
                }
            }
            assert forall|i: int, j: int| 0 <= i < j < b.shards.len() implies (
            #[trigger] b.shards[i]).idx < (#[trigger] b.shards[j]).idx by {
                assert(b.shards[i] == a.shards[i]);
                if j < a.shards.len() {
                    assert(b.shards[j] == a.shards[j]);
                }
            }
        }
    }

    /// Where the arriving file with this index stands; `None` where its header
    /// has not been read yet.
    pub fn find(&self, idx: u64) -> (r: Option<usize>)
        requires
            self@.wf(),
        ensures
            match r {
                Some(i) => i < self@.shards.len() && self@.shards[i as int].idx == idx,
                None => forall|i: int|
                    0 <= i < self@.shards.len() ==> (#[trigger] self@.shards[i]).idx != idx,
            },
    {
        let mut lo: usize = 0;
        let mut hi: usize = self.shards.len();
        while lo < hi
            invariant
                self@.wf(),
                lo <= hi <= self.shards@.len(),
                forall|i: int| 0 <= i < lo ==> (#[trigger] self@.shards[i]).idx < idx,
                forall|i: int|
                    hi <= i < self@.shards.len() ==> (#[trigger] self@.shards[i]).idx > idx,
            decreases hi - lo,
        {
            let mid: usize = lo + (hi - lo) / 2;
            assert(self@.shards[mid as int].idx == self.shards@[mid as int].idx);
            if self.shards[mid].idx == idx {
                return Some(mid);
            }
            if self.shards[mid].idx < idx {
                lo = mid + 1;
            } else {
                hi = mid;
            }
        }
        None
    }

    /// Where a chunk of the file with this index goes.
    pub fn chunk_place(&self, idx: u64) -> (r: ChunkPlace)
        requires
            self@.wf(),
        ensures
            match r {
                ChunkPlace::Wait => forall|i: int|
                    0 <= i < self@.shards.len() ==> (#[trigger] self@.shards[i]).idx != idx,
                ChunkPlace::Write(i) => i < self@.shards.len() && self@.shards[i as int].idx == idx
                    && !self@.shards[i as int].kept,
                ChunkPlace::Drop(i) => i < self@.shards.len() && self@.shards[i as int].idx == idx
                    && self@.shards[i as int].kept,
            },
    {
        match self.find(idx) {
            None => ChunkPlace::Wait,
            Some(i) => {
                assert(self@.shards[i as int] == self.shards@[i as int]@);
                if self.shards[i].kept {
                    ChunkPlace::Drop(i)
                } else {
                    ChunkPlace::Write(i)
                }
            },
        }
    }

    /// Counts a chunk of the arriving file at position `i`, once it was written or
    /// dropped, and says what is reported.
    pub fn on_chunk(&mut self, i: usize, len: u64) -> (r: TransferUpdate)
        requires
            old(self)@.wf(),
            i < old(self)@.shards.len(),
        ensures
            final(self)@ == after_chunk_written(old(self)@, i as int, len),
            r@ == status_report(final(self)@.sent, final(self)@.total, "Receiving..."@),
            final(self)@.wf(),
    {
        let ghost before = self@;
        let received: u64 = self.shards[i].received.wrapping_add(len);
        self.shards[i].received = received;
        self.sent = self.sent.wrapping_add(len);
        assert(self@.shards =~= after_chunk_written(before, i as int, len).shards);
        report_recv_progress(self, "Receiving...")
    }

    /// Whether all of each sharded file has arrived.
    pub fn complete(&self) -> (r: bool)
        ensures
            r == all_arrived(self@),
    {
        let mut i: usize = 0;
        while i < self.shards.len()
            invariant
                i <= self.shards@.len(),
                forall|j: int|
                    0 <= j < i ==> (#[trigger] self@.shards[j]).received >= self@.shards[j].size,
            decreases self.shards@.len() - i,
        {
            assert(self@.shards[i as int] == self.shards@[i as int]@);
            if self.shards[i].received < self.shards[i].size {
                return false;
            }
            i = i + 1;
        }
        true
    }

    /// The hash that the arriving file at position `i` is checked against, where
    /// it is checked.
    pub fn expected_hash(&self, hashes: &HashMap<u64, u64>, i: usize) -> (r: Option<u64>)
        requires
            i < self@.shards.len(),
        ensures
            r == to_verify(self@, hashes@, i as int),
    {
        assert(self@.shards[i as int] == self.shards@[i as int]@);
        if !self.checksum || self.shards[i].kept {
            return None;
        }
        broadcast use vstd::std_specs::hash::group_hash_axioms;

        match hashes.get(&self.shards[i].idx) {
            Some(h) => {
                if *h == 0 {
                    None
                } else {
                    Some(*h)
                }
            },
            None => None,
        }
    }

    /// Counts a sharded file whose hash was taken; `None` where it could not be
    /// read.
    pub fn on_verified(&mut self, expected: u64, digest: Option<u64>)
        requires
            old(self)@.wf(),
            old(self)@.mismatches < u64::MAX,
        ensures
            final(self)@ == after_verify(old(self)@, expected, digest),
            final(self)@.wf(),
    {
        let same: bool = match digest {
            Some(d) => d == expected,
            None => false,
        };
        if !same {
            self.mismatches = self.mismatches + 1;
        }
        proof {
            lemma_wf_kept(old(self)@, self@);
        }
    }

    /// The time that is set on the arriving file at position `i`; none on one that
    /// is kept.
    pub fn time_for(&self, i: usize) -> (r: Option<u64>)
        requires
            i < self@.shards.len(),
        ensures
            r == if self@.shards[i as int].kept {
                None
            } else {
                time_to_set(self@.shards[i as int].mtime)
            },
    {
        assert(self@.shards[i as int] == self.shards@[i as int]@);
        if self.shards[i].kept {
            None
        } else {
            time_of(self.shards[i].mtime)
        }
    }

    /// The last answer to the sender.
    pub fn ack(&self) -> (r: Vec<u8>)
        ensures
            r@ == ack_bytes(self@.mismatches),
    {
        encode_ack(self.mismatches)
    }

    /// The last report of the transfer; the label is for one that went well.
    pub fn closing(&self, label: &str) -> (r: TransferUpdate)
        ensures
            r@ == closing_report(self@, label@),
    {
        if self.mismatches == 0 {
            let most: u64 = if self.sent > self.total {
                self.sent
            } else {
                self.total
            };
            report_done(most, most, label)
        } else {
            report_error(self.sent, self.total, mismatch_text(self.mismatches).as_str())
        }
    }
}

/// A report of how much has arrived.
pub fn report_recv_progress(s: &RecvSession, label: &str) -> (r: TransferUpdate)
    ensures
        r@ == status_report(s@.sent, s@.total, label@),
{
    report_status(s.sent, s.total, label)
}

/// What the receiver does while it waits for the data streams.
#[derive(Clone, Copy, Debug, PartialEq, Eq, Structural)]
pub enum WaitStep {
    /// All has arrived.
    Done,
    /// The time is up.
    GiveUp,
    /// Look again a little later.
    Again,
}

/// What the receiver does while it waits for the data streams.
pub fn wait_step(complete: bool, time_is_up: bool) -> (r: WaitStep)
    ensures
        r == (if complete {
            WaitStep::Done
        } else if time_is_up {
            WaitStep::GiveUp
        } else {
            WaitStep::Again
        }),
{
    if complete {
        WaitStep::Done
    } else if time_is_up {
        WaitStep::GiveUp
    } else {
        WaitStep::Again
    }
}

/// Where a chunk ends in its file; `None` where that cannot be counted.
pub fn chunk_end(offset: u64, len: u32) -> (r: Option<u64>)
    ensures
        r is Some <==> offset + len <= u64::MAX,
        r matches Some(end) ==> end == offset + len,
{
    if len as u64 > u64::MAX - offset {
        None
    } else {
        Some(offset + len as u64)
    }
}

// ---------------------------------------------------------------------------
// The hashes at the end of the entries
// ---------------------------------------------------------------------------

/// Hashes by the index of their entry; of two for one entry the later holds.
pub open spec fn hash_map(hashes: Seq<(u64, u64)>) -> Map<u64, u64>
    decreases hashes.len(),
{
    if hashes.len() == 0 {
        Map::empty()
    } else {
        hash_map(hashes.drop_last()).insert(hashes.last().0, hashes.last().1)
    }
}

/// The hashes that have been read so far, and how many are still to come.
pub struct HashList {
    pub left: u64,
    pub hashes: HashMap<u64, u64>,
}

impl HashList {
    /// A list of which nothing was read yet.
    pub fn start(count: u64) -> (r: HashList)
        ensures
            r.left == count,
            r.hashes@ == hash_map(Seq::empty()),
    {
        broadcast use vstd::std_specs::hash::group_hash_axioms;

        HashList { left: count, hashes: HashMap::new() }
    }

    /// Takes the next hash.
    pub fn add(&mut self, idx: u64, hash: u64)
        requires
            old(self).left > 0,
        ensures
            final(self).left == old(self).left - 1,
            final(self).hashes@ == old(self).hashes@.insert(idx, hash),
    {
        broadcast use vstd::std_specs::hash::group_hash_axioms;

        self.left = self.left - 1;
        self.hashes.insert(idx, hash);
    }
}

// ---------------------------------------------------------------------------
// The hash of a file on disk
// ---------------------------------------------------------------------------

/// The hash of a file that is read from its beginning to its end.
pub struct FileHash {
    pub hasher: Xxh3,
}

impl FileHash {
    /// The bytes that were read so far.
    pub open spec fn read(&self) -> Seq<u8> {
        absorbed(self.hasher)
    }

    pub fn start() -> (r: FileHash)
        ensures
            r.read() == Seq::<u8>::empty(),
    {
        FileHash { hasher: Xxh3::new() }
    }

    /// Takes the bytes of the next read.
    pub fn on_read(&mut self, data: &[u8])
        ensures
            final(self).read() == old(self).read() + data@,
    {
        self.hasher.update(data);
    }

    /// The hash of all that was read.
    pub fn finish(&self) -> (r: u64)
        ensures
            r == content_hash(self.read()),
    {
        self.hasher.digest()
    }
}

// ---------------------------------------------------------------------------
// What holds of the receiving side
// ---------------------------------------------------------------------------

/// Counting in 64 bits is adding, with what is over the largest number taken off.
pub proof fn law_counting_wraps(a: u64, n: u64)
    ensures
        counted(a, n) == (a + n) % 0x1_0000_0000_0000_0000,
        a + n <= u64::MAX ==> counted(a, n) == a + n,
{
}

/// A file that came on the control stream counts for one mismatch where its length
/// is not the one that its header gives, and for one more just where hashes are
/// checked, its header names one, and the file has another; for none otherwise,
/// whatever its size and flags are. It is counted as one entry, and its size is
/// added to what arrived.
pub proof fn law_file_counts_for_its_mismatches(
    s: RecvState,
    e: EntryView,
    len: nat,
    digest: u64,
    hash: u64,
    wire_len: u64,
)
    requires
        s.idx < u64::MAX,
        s.mismatches <= u64::MAX - 2,
        e.kind == (EntryKind::Inline { hash, wire_len }),
    ensures
        ({
            let t = after_file(s, e, len, digest);
            let wrong_len: int = if len == e.size {
                0
            } else {
                1
            };
            let wrong_hash: int = if s.checksum && hash != 0 && digest != hash {
                1
            } else {
                0
            };
            &&& t.mismatches == s.mismatches + wrong_len + wrong_hash
            &&& t.sent == (s.sent + e.size) % 0x1_0000_0000_0000_0000
            &&& t.idx == s.idx + 1
            &&& t.shards == s.shards
            &&& t.total == s.total && t.checksum == s.checksum && t.overwrite == s.overwrite
        }),
{
}

/// What is done with a file that came on the control stream: its bytes go to the
/// place that its path leads to, with its time where it has one; it is written
/// while more is read where it has at most 8 MiB; and the report gives its path
/// and what arrived with it.
pub proof fn law_file_goes_to_its_place(a: FileAction, s: RecvState, e: EntryView, content: Seq<u8>)
    requires
        places(a, s, e, content),
    ensures
        a.content@ == content,
        destination(e.rel) == Ok::<Seq<Seq<char>>, PathError>(texts(a.dest@)),
        e.mtime == 0 ==> a.mtime is None,
        e.mtime != 0 ==> a.mtime == Some(e.mtime),
        a.pipelined <==> content.len() <= 0x80_0000,
        a.update@.label == e.rel,
        a.update@.sent_bytes == (s.sent + e.size) % 0x1_0000_0000_0000_0000,
        a.update@.total_bytes == s.total,
        !a.update@.done && a.update@.error is None,
{
}

/// A sharded file is listed last, under the number of its entry, with nothing of
/// it received; the files before it are as they were, and nothing else is counted.
pub proof fn law_sharded_file_is_listed(
    s: RecvState,
    dest: Seq<Seq<char>>,
    size: u64,
    mtime: u64,
    kept: bool,
)
    requires
        s.idx < u64::MAX,
    ensures
        ({
            let t = after_shard_placed(s, dest, size, mtime, kept);
            let f = t.shards[s.shards.len() as int];
            &&& t.shards.len() == s.shards.len() + 1
            &&& forall|i: int| 0 <= i < s.shards.len() ==> #[trigger] t.shards[i] == s.shards[i]
            &&& f.idx == s.idx && f.dest == dest && f.size == size && f.mtime == mtime
            &&& f.received == 0 && f.kept == kept
            &&& t.idx == s.idx + 1
            &&& t.mismatches == s.mismatches && t.sent == s.sent && t.total == s.total
            &&& t.checksum == s.checksum && t.overwrite == s.overwrite
        }),
{
}

/// A chunk is counted for its own file and for the transfer, and changes nothing
/// else.
pub proof fn law_chunk_is_counted_once(s: RecvState, i: int, len: u64)
    requires
        0 <= i < s.shards.len(),
    ensures
        ({
            let t = after_chunk_written(s, i, len);
            let f = t.shards[i];
            &&& t.shards.len() == s.shards.len()
            &&& forall|j: int|
                0 <= j < s.shards.len() && j != i ==> #[trigger] t.shards[j] == s.shards[j]
            &&& f.received == (s.shards[i].received + len) % 0x1_0000_0000_0000_0000
            &&& f.idx == s.shards[i].idx && f.dest == s.shards[i].dest
            &&& f.size == s.shards[i].size && f.mtime == s.shards[i].mtime
            &&& f.kept == s.shards[i].kept
            &&& t.sent == (s.sent + len) % 0x1_0000_0000_0000_0000
            &&& t.idx == s.idx && t.mismatches == s.mismatches && t.total == s.total
            &&& t.checksum == s.checksum && t.overwrite == s.overwrite
        }),
{
}

/// What the sender asked for reaches the receiver: hashes are checked where the
/// second bit of the flags is set; files are replaced where the third is, or where
/// this side wants it.
pub proof fn law_receiver_starts_as_asked(h: Handshake, overwrite: bool)
    ensures
        recv_start(h, overwrite).checksum <==> h.flags & 2 != 0,
        recv_start(h, overwrite).overwrite <==> overwrite || h.flags & 4 != 0,
        recv_start(h, overwrite).total == h.total,
        recv_start(h, overwrite).sent == 0,
        recv_start(h, overwrite).idx == 0,
        recv_start(h, overwrite).mismatches == 0,
        recv_start(h, overwrite).shards.len() == 0,
{
}

/// The hash of a sharded file is checked just where hashes are checked at all, the
/// file was not kept as it was, and a hash other than 0 was named for it; and then
/// it is that hash.
pub proof fn law_sharded_files_are_checked(s: RecvState, hashes: Map<u64, u64>, i: int)
    requires
        0 <= i < s.shards.len(),
    ensures
        ({
            let idx = s.shards[i].idx;
            &&& to_verify(s, hashes, i) is Some <==> s.checksum && !s.shards[i].kept
                && hashes.dom().contains(idx) && hashes[idx] != 0
            &&& to_verify(s, hashes, i) is Some ==> to_verify(s, hashes, i)->0 == hashes[idx]
        }),
{
}

/// A hash that was taken counts for one mismatch unless it is the one that was
/// named; a file that could not be read counts for one as well.
pub proof fn law_wrong_hash_counts_once(s: RecvState, expected: u64, digest: Option<u64>)
    requires
        s.mismatches < u64::MAX,
    ensures
        ({
            let t = after_verify(s, expected, digest);
            let right = digest is Some && digest->0 == expected;
            &&& t.mismatches == if right {
                s.mismatches as int
            } else {
                s.mismatches + 1
            }
            &&& t.shards == s.shards && t.sent == s.sent && t.total == s.total && t.idx == s.idx
            &&& t.checksum == s.checksum && t.overwrite == s.overwrite
        }),
{
}

/// A transfer without a mismatch is reported as done, at the larger of what arrived
/// and what was announced; one with mismatches is reported with their number.
pub proof fn law_closing_tells_the_mismatches(s: RecvState, label: Seq<char>)
    ensures
        ({
            let u = closing_report(s, label);
            &&& u.done
            &&& u.error is None <==> s.mismatches == 0
            &&& s.mismatches == 0 ==> u.label == label && u.sent_bytes >= s.sent && u.sent_bytes
                >= s.total && (u.sent_bytes == s.sent || u.sent_bytes == s.total) && u.total_bytes
                == u.sent_bytes
            &&& s.mismatches > 0 ==> {
                let n = crate::text::decimal(s.mismatches as nat);
                &&& u.error->0.take(n.len() as int) == n
                &&& u.error->0.skip(n.len() as int) == " checksum mismatches"@
                &&& u.sent_bytes == s.sent && u.total_bytes == s.total
            }
        }),
{
    let n = crate::text::decimal(s.mismatches as nat);
    let all = n + " checksum mismatches"@;
    assert(all.take(n.len() as int) =~= n);
    assert(all.skip(n.len() as int) =~= " checksum mismatches"@);
}

/// Of the hashes that are named for one index the last counts.
pub proof fn law_last_named_hash_counts(hashes: Seq<(u64, u64)>, i: int)
    requires
        0 <= i < hashes.len(),
        forall|j: int| i < j < hashes.len() ==> (#[trigger] hashes[j]).0 != hashes[i].0,
    ensures
        hash_map(hashes).dom().contains(hashes[i].0),
        hash_map(hashes)[hashes[i].0] == hashes[i].1,
    decreases hashes.len(),
{
    let k = hashes.len() - 1;
    if i < k {
        let before = hashes.drop_last();
        assert(before[i] == hashes[i]);
        assert forall|j: int| i < j < before.len() implies (#[trigger] before[j]).0
            != before[i].0 by {
            assert(hashes[j].0 != hashes[i].0);
        }
        law_last_named_hash_counts(before, i);
        assert(hashes[k].0 != hashes[i].0);
    }
}

/// No hash is held for an index for which none was named.
pub proof fn law_unnamed_hash_is_not_held(hashes: Seq<(u64, u64)>, idx: u64)
    requires
        forall|j: int| 0 <= j < hashes.len() ==> (#[trigger] hashes[j]).0 != idx,
    ensures
        !hash_map(hashes).dom().contains(idx),
    decreases hashes.len(),
{
    if hashes.len() > 0 {
        let before = hashes.drop_last();
        assert forall|j: int| 0 <= j < before.len() implies (#[trigger] before[j]).0 != idx by {
            assert(hashes[j].0 != idx);
        }
        law_unnamed_hash_is_not_held(before, idx);
        assert(hashes[hashes.len() - 1].0 != idx);
    }
}

/// A time is set where one came, and 0 stands for none. A file that is there is kept
/// just where it is not to be overwritten.
pub proof fn law_times_and_places_are_kept(mtime: u64, overwrite: bool, there: bool)
    ensures
        time_to_set(mtime) is None <==> mtime == 0,
        time_to_set(mtime) is Some ==> time_to_set(mtime)->0 == mtime,
        shard_place(overwrite, there) == ShardPlace::Keep <==> there && !overwrite,
        shard_place(overwrite, there) == ShardPlace::Create <==> overwrite || !there,
{
}

/// The bytes of a file are those that came; where the header says that they are a block,
/// they are what the block holds.
pub proof fn law_bytes_are_those_that_came(e: EntryView, payload: Seq<u8>)
    ensures
        e.flags & 1 == 0 ==> arrived(e, payload) == Some(payload),
        e.flags & 1 != 0 ==> arrived(e, payload) == lz4_content(payload),
{
}

/// All has arrived just where no file is short of a byte.
pub proof fn law_nothing_is_missing(s: RecvState)
    ensures
        all_arrived(s) <==> !exists|i: int|
            0 <= i < s.shards.len() && (#[trigger] s.shards[i]).received < s.shards[i].size,
{
}

} // verus!

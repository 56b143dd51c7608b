//! The sending side: what is sent, in which order and in which form.

use vstd::prelude::*;
use vstd::string::*;
use xxhash_rust::xxh3::Xxh3;

use crate::entry::{encode_entry, entry_bytes, Entry, EntryKind, EntryView};
use crate::jobs::{seen, Job, JobView};
use crate::messages::{chunk_bytes, encode_chunk, encode_end, end_bytes, Handshake};
use crate::outside::{absorbed, content_hash, lz4_content, random_u64};
pub use crate::progress::human_bytes;
use crate::progress::{file_report, listed, report_file, TransferFile, TransferUpdate};
use crate::protocol::{
    ascii_lowered,
    is_incompressible,
    packed_ending,
    CHUNK_SIZE,
    COMPRESS_MIN,
    F_COMPRESSED,
    H_CHECKSUM,
    H_COMPRESS,
    H_OVERWRITE,
    INLINE_MEM_LIMIT,
    LARGE_THRESHOLD,
    MAX_STREAMS,
};
use crate::text::{trim, trimmed};
use crate::wire::le_value;

verus! {

/// What a transfer is sent with.
#[derive(Clone, Debug)]
pub struct SendOptions {
    pub target: String,
    pub port: u16,
    pub streams: u8,
    pub compress: bool,
    pub checksum: bool,
    pub overwrite: bool,
    /// The name that the sender goes by; where it is blank, that of the machine.
    pub sender_name: String,
}

/// The name that a sender goes by, without white space around it.
pub fn shown_name(sender_name: &str, machine: &str) -> (r: String)
    ensures
        r@ == (if trimmed(sender_name@).len() == 0 {
            trimmed(machine@)
        } else {
            trimmed(sender_name@)
        }),
{
    let own = trim(sender_name);
    if own.as_str().is_empty() {
        trim(machine)
    } else {
        own
    }
}

// ---------------------------------------------------------------------------
// The transfer as a whole
// ---------------------------------------------------------------------------

/// Whether a job is a file that parallel streams pay for.
pub open spec fn is_large(j: JobView) -> bool {
    !j.is_dir && j.size >= LARGE_THRESHOLD
}

/// How many jobs are large files.
pub open spec fn large_count(jobs: Seq<JobView>) -> nat {
    jobs.filter(|j: JobView| is_large(j)).len()
}

/// The files among the jobs, by name and size, in the order of the jobs.
pub open spec fn file_list(jobs: Seq<JobView>) -> Seq<(Seq<char>, u64)> {
    jobs.filter(|j: JobView| !j.is_dir).map_values(|j: JobView| (j.rel, j.size))
}

/// How many data streams a transfer opens: none where no file is large.
pub open spec fn stream_count(streams: u8, large: nat) -> u8 {
    if large == 0 {
        0
    } else if streams > MAX_STREAMS {
        MAX_STREAMS
    } else {
        streams
    }
}

/// The handshake flags for what was asked for.
pub open spec fn flag_bits(compress: bool, checksum: bool, overwrite: bool) -> u16 {
    (if compress {
        H_COMPRESS
    } else {
        0
    }) | (if checksum {
        H_CHECKSUM
    } else {
        0
    }) | (if overwrite {
        H_OVERWRITE
    } else {
        0
    })
}

/// What the sender says of a transfer.
pub open spec fn handshake_for(
    jobs: Seq<JobView>,
    total: u64,
    opt: SendOptions,
    token: u64,
) -> Handshake {
    Handshake {
        flags: flag_bits(opt.compress, opt.checksum, opt.overwrite),
        token,
        nstreams: stream_count(opt.streams, large_count(jobs)),
        nfiles: jobs.len() as u64,
        total,
    }
}

/// A transfer in outline.
#[derive(Debug)]
pub struct Outline {
    pub handshake: Handshake,
    pub num_files: usize,
    pub num_large: usize,
    pub files: Vec<TransferFile>,
}

/// Whether `o` is the outline of a transfer of these jobs.
pub open spec fn outlines(
    o: Outline,
    jobs: Seq<JobView>,
    total: u64,
    opt: SendOptions,
    token: u64,
) -> bool {
    &&& o.handshake == handshake_for(jobs, total, opt, token)
    &&& listed(o.files@) == file_list(jobs)
    &&& o.num_files == file_list(jobs).len()
    &&& o.num_large == large_count(jobs)
}

fn flags_for(opt: &SendOptions) -> (r: u16)
    ensures
        r == flag_bits(opt.compress, opt.checksum, opt.overwrite),
{
    let mut flags: u16 = 0;
    if opt.compress {
        flags = flags | H_COMPRESS;
    }
    if opt.checksum {
        flags = flags | H_CHECKSUM;
    }
    if opt.overwrite {
        flags = flags | H_OVERWRITE;
    }
    assert(0u16 | 1u16 == 1 && 0u16 | 2u16 == 2 && 0u16 | 4u16 == 4 && 0u16 | 0u16 == 0 && 1u16
        | 0u16 == 1 && 2u16 | 0u16 == 2) by (bit_vector);
    assert(1u16 | 2u16 == 3 && 3u16 | 0u16 == 3) by (bit_vector);
    flags
}

/// The files of a transfer by name and size, in the order in which they are sent.
pub fn list_files(jobs: &Vec<Job>) -> (r: Vec<TransferFile>)
    ensures
        listed(r@) == file_list(seen(jobs@)),
{
    let mut files: Vec<TransferFile> = Vec::new();
    let mut i: usize = 0;
    let ghost all = seen(jobs@);
    assert(all.take(0) =~= Seq::empty());
    proof {
        reveal(Seq::filter);
        assert(listed(files@) =~= file_list(all.take(0)));
    }
    while i < jobs.len()
        invariant
            i <= jobs@.len(),
            all == seen(jobs@),
            listed(files@) == file_list(all.take(i as int)),
        decreases jobs@.len() - i,
    {
        let job = &jobs[i];
        let ghost before = files@;
        proof {
            assert(all[i as int] == job@);
            lemma_file_list_next(all, i as int);
        }
        if !job.is_dir {
            files.push(TransferFile { name: job.rel.clone(), size: job.size });
            assert(listed(files@) =~= listed(before).push((job.rel@, job.size)));
        }
        i = i + 1;
    }
    assert(all.take(i as int) =~= all);
    files
}

/// The list of files grows by each job that is a file.
pub proof fn lemma_file_list_next(jobs: Seq<JobView>, k: int)
    requires
        0 <= k < jobs.len(),
    ensures
        file_list(jobs.take(k + 1)) == if jobs[k].is_dir {
            file_list(jobs.take(k))
        } else {
            file_list(jobs.take(k)).push((jobs[k].rel, jobs[k].size))
        },
{
    reveal(Seq::filter);
    assert(jobs.take(k + 1).drop_last() =~= jobs.take(k));
    assert(jobs.take(k + 1).last() == jobs[k]);
    if !jobs[k].is_dir {
        assert(file_list(jobs.take(k + 1)) =~= file_list(jobs.take(k)).push(
            (jobs[k].rel, jobs[k].size),
        ));
    }
}

/// A transfer in outline, with the token given; `None` where there is nothing to
/// send.
pub fn outline_with(jobs: &Vec<Job>, total: u64, opt: &SendOptions, token: u64) -> (r: Option<
    Outline,
>)
    ensures
        r is None <==> jobs@.len() == 0,
        r matches Some(o) ==> outlines(o, seen(jobs@), total, *opt, token),
{
    if jobs.len() == 0 {
        return None;
    }
    let files = list_files(jobs);
    let mut num_large: usize = 0;
    let mut i: usize = 0;
    let ghost all = seen(jobs@);
    assert(all.take(0) =~= Seq::empty());
    assert(large_count(all.take(0)) == 0) by {
        reveal(Seq::filter);
    }
    while i < jobs.len()
        invariant
            i <= jobs@.len(),
            all == seen(jobs@),
            num_large == large_count(all.take(i as int)),
            num_large <= i,
        decreases jobs@.len() - i,
    {
        let job = &jobs[i];
        proof {
            reveal(Seq::filter);
            assert(all.take(i + 1).drop_last() =~= all.take(i as int));
            assert(all.take(i + 1).last() == job@);
        }
        if !job.is_dir && job.size >= LARGE_THRESHOLD {
            num_large = num_large + 1;
        }
        i = i + 1;
    }
    assert(all.take(i as int) =~= all);
    let nstreams: u8 = if num_large == 0 {
        0
    } else if opt.streams > MAX_STREAMS {
        MAX_STREAMS
    } else {
        opt.streams
    };
    let handshake = Handshake {
        flags: flags_for(opt),
        token,
        nstreams,
        nfiles: jobs.len() as u64,
        total,
    };
    let num_files: usize = files.len();
    assert(num_files == listed(files@).len());
    Some(Outline { handshake, num_files, num_large, files })
}

/// A transfer in outline, with a token of its own; `None` where there is nothing
/// to send.
pub fn outline(jobs: &Vec<Job>, total: u64, opt: &SendOptions) -> (r: Option<Outline>)
    ensures
        r is None <==> jobs@.len() == 0,
        r matches Some(o) ==> outlines(o, seen(jobs@), total, *opt, o.handshake.token),
{
    let token: u64 = random_u64();
    outline_with(jobs, total, opt, token)
}

/// A transfer never opens more streams than are allowed nor than were asked for,
/// and opens none exactly where none was asked for or no file is large.
pub proof fn law_streams_are_bounded(streams: u8, large: nat)
    ensures
        stream_count(streams, large) <= MAX_STREAMS,
        stream_count(streams, large) <= streams,
        stream_count(streams, large) == 0 <==> streams == 0 || large == 0,
{
}

// ---------------------------------------------------------------------------
// Entries
// ---------------------------------------------------------------------------

/// In which form a job is sent.
#[derive(Clone, Copy, Debug, PartialEq, Eq, Structural)]
pub enum Form {
    Dir,
    Inline,
    Sharded,
}

/// In which form a job is sent: a large file over the data streams, where there
/// are any.
pub open spec fn job_form(j: JobView, nstreams: u8) -> Form {
    if j.is_dir {
        Form::Dir
    } else if is_large(j) && nstreams > 0 {
        Form::Sharded
    } else {
        Form::Inline
    }
}

/// In which form a job is sent.
pub fn form_of(job: &Job, nstreams: u8) -> (r: Form)
    ensures
        r == job_form(job@, nstreams),
{
    if job.is_dir {
        Form::Dir
    } else if job.size >= LARGE_THRESHOLD && nstreams > 0 {
        Form::Sharded
    } else {
        Form::Inline
    }
}

/// How many chunks a file of this size has.
pub open spec fn chunk_count(size: nat) -> nat {
    (size + CHUNK_SIZE - 1) as nat / CHUNK_SIZE as nat
}

/// The header of a directory.
pub open spec fn dir_entry(j: JobView) -> EntryView {
    EntryView {
        kind: EntryKind::Dir,
        flags: 0,
        rel: j.rel,
        size: 0,
        mtime: j.mtime,
        mode: j.mode,
    }
}

/// The header of a sharded file.
pub open spec fn shard_entry(j: JobView) -> EntryView {
    EntryView {
        kind: EntryKind::Sharded {
            nchunks: (chunk_count(j.size as nat) % 0x1_0000_0000) as u32,
            csize: CHUNK_SIZE,
        },
        flags: 0,
        rel: j.rel,
        size: j.size,
        mtime: j.mtime,
        mode: j.mode,
    }
}

/// The header of a file of `size` bytes, `wire_len` of which follow it.
pub open spec fn inline_entry(
    j: JobView,
    size: nat,
    hash: u64,
    wire_len: nat,
    packed: bool,
) -> EntryView {
    EntryView {
        kind: EntryKind::Inline { hash, wire_len: wire_len as u64 },
        flags: if packed {
            F_COMPRESSED
        } else {
            0
        },
        rel: j.rel,
        size: size as u64,
        mtime: j.mtime,
        mode: j.mode,
    }
}

/// A file as it goes over the control stream: its header, and the bytes behind
/// it. They are the block that compression gave, where it gave one that is
/// shorter than the file.
pub open spec fn inline_item(
    j: JobView,
    data: Seq<u8>,
    hash: u64,
    block: Option<Seq<u8>>,
) -> (EntryView, Seq<u8>) {
    if block is Some && block->0.len() < data.len() {
        (inline_entry(j, data.len(), hash, block->0.len(), true), block->0)
    } else {
        (inline_entry(j, data.len(), hash, data.len(), false), data)
    }
}

/// An entry on the wire, with the bytes behind its header.
pub open spec fn item_bytes(item: (EntryView, Seq<u8>)) -> Seq<u8> {
    entry_bytes(item.0) + item.1
}

/// What compression gave, as seen by contracts.
pub open spec fn given(block: Option<Vec<u8>>) -> Option<Seq<u8>> {
    match block {
        Some(b) => Some(b@),
        None => None,
    }
}

/// A file as it goes over the control stream, with the hash given and with what
/// compression gave, where it was tried.
pub fn frame_inline(job: &Job, data: &[u8], hash: u64, block: Option<Vec<u8>>) -> (r: Vec<u8>)
    ensures
        r@ == item_bytes(inline_item(job@, data@, hash, given(block))),
{
    let size: u64 = data.len() as u64;
    if let Some(b) = block {
        if b.len() < data.len() {
            let e = Entry {
                kind: EntryKind::Inline { hash, wire_len: b.len() as u64 },
                flags: F_COMPRESSED,
                rel: job.rel.clone(),
                size,
                mtime: job.mtime,
                mode: job.mode,
            };
            let mut r = encode_entry(&e);
            r.extend_from_slice(b.as_slice());
            proof {
                assert(r@ =~= entry_bytes(e@) + b@);
                assert(e@ == inline_entry(job@, data@.len(), hash, b@.len(), true));
            }
            return r;
        }
    }
    let e = Entry {
        kind: EntryKind::Inline { hash, wire_len: size },
        flags: 0,
        rel: job.rel.clone(),
        size,
        mtime: job.mtime,
        mode: job.mode,
    };
    let mut r = encode_entry(&e);
    r.extend_from_slice(data);
    proof {
        assert(r@ =~= entry_bytes(e@) + data@);
        assert(e@ == inline_entry(job@, data@.len(), hash, data@.len(), false));
    }
    r
}

/// The hash that is sent of a file: 0 where no checksum was asked for.
pub open spec fn hash_of(data: Seq<u8>, checksum: bool) -> u64 {
    if checksum {
        content_hash(data)
    } else {
        0
    }
}

/// Whether compression is tried on a file: small, but not too small, and not
/// compressed already by its name.
pub open spec fn tries_packing(compress: bool, rel: Seq<char>, len: nat) -> bool {
    compress && COMPRESS_MIN < len <= INLINE_MEM_LIMIT && !packed_ending(ascii_lowered(rel))
}

/// Whether `block` is what compression gave for a file: nothing where it was not
/// tried, and a block of the file behind its length where it was.
pub open spec fn packs(
    compress: bool,
    rel: Seq<char>,
    data: Seq<u8>,
    block: Option<Seq<u8>>,
) -> bool {
    match block {
        Some(b) => {
            &&& tries_packing(compress, rel, data.len())
            &&& lz4_content(b) == Some(data)
            &&& b.len() >= 4
            &&& le_value(b.subrange(0, 4)) == data.len()
        },
        None => !tries_packing(compress, rel, data.len()),
    }
}

/// A file that was read, as it goes over the control stream, with what
/// compression gave for it.
pub open spec fn sent_inline(
    j: JobView,
    data: Seq<u8>,
    checksum: bool,
    block: Option<Seq<u8>>,
) -> (EntryView, Seq<u8>) {
    inline_item(j, data, hash_of(data, checksum), block)
}

/// Whether these bytes are a file that was read, as it goes over the control
/// stream. There is more than one such string only where compression is tried:
/// which block it gives is left to it.
pub open spec fn is_sent_inline(
    bytes: Seq<u8>,
    j: JobView,
    data: Seq<u8>,
    compress: bool,
    checksum: bool,
) -> bool {
    exists|block: Option<Seq<u8>>| #[trigger]
        packs(compress, j.rel, data, block) && bytes == item_bytes(
            sent_inline(j, data, checksum, block),
        )
}

/// A file that was read, as it goes over the control stream. Its bytes can be
/// had again from what is sent.
pub fn encode_inline(job: &Job, data: &[u8], compress: bool, checksum: bool) -> (r: Vec<u8>)
    ensures
        is_sent_inline(r@, job@, data@, compress, checksum),
{
    let hash: u64 = if checksum {
        xxhash_rust::xxh3::xxh3_64(data)
    } else {
        0
    };
    let len: u64 = data.len() as u64;
    let block: Option<Vec<u8>> = if compress && len > COMPRESS_MIN && len <= INLINE_MEM_LIMIT
        && !is_incompressible(job.rel.as_str()) {
        Some(lz4_flex::compress_prepend_size(data))
    } else {
        None
    };
    assert(packs(compress, job@.rel, data@, given(block)));
    frame_inline(job, data, hash, block)
}

// ---------------------------------------------------------------------------
// The course of a transfer
// ---------------------------------------------------------------------------

/// A sharded file under way.
pub struct Shard {
    pub rel: String,
    /// How much of it was sent.
    pub offset: u64,
    /// What was read since then: less than a chunk.
    pub pending: Vec<u8>,
    pub hasher: Option<Xxh3>,
}

/// How far the sending of a transfer has come.
pub struct SendSession {
    pub nstreams: u8,
    pub compress: bool,
    pub checksum: bool,
    pub total: u64,
    /// How many entries there are.
    pub njobs: usize,
    /// Which entry comes next, or is under way.
    pub idx: usize,
    /// Which file comes next, or is under way.
    pub pos: usize,
    /// Which data stream the next chunk goes to.
    pub worker: usize,
    pub sent: u64,
    /// The hash of each sharded file, by the index of its entry.
    pub hashes: Vec<(u64, u64)>,
    pub shard: Option<Shard>,
}

/// A sharded file under way: its path, how much of it was sent, what was read
/// since then, and what was sent, where a checksum was asked for.
pub struct ShardState {
    pub rel: Seq<char>,
    pub offset: u64,
    pub pending: Seq<u8>,
    pub hashed: Option<Seq<u8>>,
}

/// How far the sending of a transfer has come.
pub struct SendState {
    pub nstreams: u8,
    pub compress: bool,
    pub checksum: bool,
    pub total: u64,
    pub njobs: usize,
    pub idx: usize,
    pub pos: usize,
    pub worker: usize,
    pub sent: u64,
    pub hashes: Seq<(u64, u64)>,
    pub shard: Option<ShardState>,
}

impl View for Shard {
    type V = ShardState;

    open spec fn view(&self) -> ShardState {
        ShardState {
            rel: self.rel@,
            offset: self.offset,
            pending: self.pending@,
            hashed: match self.hasher {
                Some(h) => Some(absorbed(h)),
                None => None,
            },
        }
    }
}

impl View for SendSession {
    type V = SendState;

    open spec fn view(&self) -> SendState {
        SendState {
            nstreams: self.nstreams,
            compress: self.compress,
            checksum: self.checksum,
            total: self.total,
            njobs: self.njobs,
            idx: self.idx,
            pos: self.pos,
            worker: self.worker,
            sent: self.sent,
            hashes: self.hashes@,
            shard: match self.shard {
                Some(s) => Some(s@),
                None => None,
            },
        }
    }
}

impl SendState {
    /// What holds of a transfer at every step. Each hash is that of an entry that
    /// was sent, and they stand in the order of the entries.
    pub open spec fn wf(self) -> bool {
        &&& self.pos <= self.idx <= self.njobs
        &&& self.nstreams > 0 ==> self.worker < self.nstreams
        &&& forall|i: int| 0 <= i < self.hashes.len() ==> (#[trigger] self.hashes[i]).0 < self.idx
        &&& forall|i: int, j: int|
            0 <= i < j < self.hashes.len() ==> (#[trigger] self.hashes[i]).0 < (
            #[trigger] self.hashes[j]).0
        &&& self.shard matches Some(s) ==> self.idx < self.njobs && self.nstreams > 0 && (
        s.hashed is Some <==> self.checksum) && s.pending.len() < CHUNK_SIZE
    }

    /// Whether an entry can be sent next.
    pub open spec fn ready(self) -> bool {
        self.wf() && self.shard is None && self.idx < self.njobs
    }
}

/// The state in which a transfer starts.
pub open spec fn send_start(
    nstreams: u8,
    compress: bool,
    checksum: bool,
    njobs: usize,
    total: u64,
) -> SendState {
    SendState {
        nstreams,
        compress,
        checksum,
        total,
        njobs,
        idx: 0,
        pos: 0,
        worker: 0,
        sent: 0,
        hashes: Seq::empty(),
        shard: None,
    }
}

/// The state after a directory was sent.
pub open spec fn after_dir(s: SendState) -> SendState {
    SendState { idx: (s.idx + 1) as usize, ..s }
}

/// The state after a file of `len` bytes was sent on the control stream.
pub open spec fn after_inline(s: SendState, len: nat) -> SendState {
    SendState {
        idx: (s.idx + 1) as usize,
        pos: (s.pos + 1) as usize,
        sent: (s.sent + len) as u64,
        ..s
    }
}

/// The state after the header of a sharded file was sent.
pub open spec fn after_shard_header(s: SendState, rel: Seq<char>) -> SendState {
    SendState {
        shard: Some(
            ShardState {
                rel,
                offset: 0,
                pending: Seq::empty(),
                hashed: if s.checksum {
                    Some(Seq::empty())
                } else {
                    None
                },
            },
        ),
        ..s
    }
}

/// The state after a chunk of the file under way was sent.
pub open spec fn after_chunk(s: SendState, data: Seq<u8>) -> SendState {
    let f = s.shard->0;
    SendState {
        worker: ((s.worker + 1) % s.nstreams as int) as usize,
        sent: (s.sent + data.len()) as u64,
        shard: Some(
            ShardState {
                rel: f.rel,
                offset: (f.offset + data.len()) as u64,
                pending: Seq::empty(),
                hashed: match f.hashed {
                    Some(h) => Some(h + data),
                    None => None,
                },
            },
        ),
        ..s
    }
}

/// The state after a read of the file under way that did not fill a chunk.
pub open spec fn after_part(s: SendState, data: Seq<u8>) -> SendState {
    let f = s.shard->0;
    SendState { shard: Some(ShardState { pending: f.pending + data, ..f }), ..s }
}

/// The chunk that a read of the file under way makes whole: one of full length,
/// or what is left where the file is at its end.
pub open spec fn chunk_made(s: SendState, data: Seq<u8>) -> Option<Seq<u8>> {
    let all = s.shard->0.pending + data;
    if all.len() > 0 && (data.len() == 0 || all.len() == CHUNK_SIZE) {
        Some(all)
    } else {
        None
    }
}

/// Whether a read is no longer than what is left of the chunk, and can be
/// counted.
pub open spec fn read_fits(s: SendState, data: Seq<u8>) -> bool {
    let all = s.shard->0.pending.len() + data.len();
    all <= CHUNK_SIZE && s.sent + all <= u64::MAX && s.shard->0.offset + all <= u64::MAX
}

/// The state after a read of the file under way, where it is not at its end.
pub open spec fn after_read(s: SendState, data: Seq<u8>) -> SendState {
    match chunk_made(s, data) {
        Some(chunk) => after_chunk(s, chunk),
        None => after_part(s, data),
    }
}

/// The hash of the sharded file under way, as far as it was sent.
pub open spec fn shard_hash(s: SendState) -> u64 {
    match s.shard->0.hashed {
        Some(h) => content_hash(h),
        None => 0,
    }
}

/// The state after the last chunk of the file under way.
pub open spec fn after_shard(s: SendState) -> SendState {
    SendState {
        idx: (s.idx + 1) as usize,
        pos: (s.pos + 1) as usize,
        hashes: s.hashes.push((s.idx as u64, shard_hash(s))),
        shard: None,
        ..s
    }
}

/// What comes of a read of the sharded file under way.
#[derive(Debug)]
pub enum ShardStep {
    /// The file is at its end, and all of it was sent.
    Finished,
    /// So many bytes are missing from the chunk.
    More(usize),
    /// A chunk goes to a data stream.
    Chunk { worker: usize, frame: Vec<u8>, update: TransferUpdate },
}

impl SendSession {
    /// A transfer that is about to start.
    pub fn start(
        nstreams: u8,
        compress: bool,
        checksum: bool,
        njobs: usize,
        total: u64,
    ) -> (r: SendSession)
        ensures
            r@ == send_start(nstreams, compress, checksum, njobs, total),
            r@.wf(),
    {
        let r = SendSession {
            nstreams,
            compress,
            checksum,
            total,
            njobs,
            idx: 0,
            pos: 0,
            worker: 0,
            sent: 0,
            hashes: Vec::new(),
            shard: None,
        };
        assert(r@.hashes =~= Seq::empty());
        r
    }

    /// Sends a directory: the bytes for the control stream.
    pub fn send_dir(&mut self, job: &Job) -> (r: Vec<u8>)
        requires
            old(self)@.ready(),
        ensures
            r@ == entry_bytes(dir_entry(job@)),
            final(self)@ == after_dir(old(self)@),
            final(self)@.wf(),
    {
        let e = Entry {
            kind: EntryKind::Dir,
            flags: 0,
            rel: job.rel.clone(),
            size: 0,
            mtime: job.mtime,
            mode: job.mode,
        };
        self.idx = self.idx + 1;
        encode_entry(&e)
    }

    /// Whether this many more bytes can be counted.
    pub fn can_count(&self, len: usize) -> (r: bool)
        ensures
            r == match self@.shard {
                Some(s) => self.sent + s.pending.len() + len <= u64::MAX && s.offset
                    + s.pending.len() + len <= u64::MAX,
                None => self.sent + len <= u64::MAX,
            },
    {
        let n: u64 = len as u64;
        match &self.shard {
            Some(s) => {
                let w: u64 = s.pending.len() as u64;
                w <= u64::MAX - n && w + n <= u64::MAX - self.sent && w + n <= u64::MAX - s.offset
            },
            None => n <= u64::MAX - self.sent,
        }
    }

    /// Sends a file that was read whole: the bytes for the control stream, and
    /// what is reported.
    pub fn send_inline(&mut self, job: &Job, data: &[u8]) -> (r: (Vec<u8>, TransferUpdate))
        requires
            old(self)@.ready(),
            old(self)@.sent + data@.len() <= u64::MAX,
        ensures
            is_sent_inline(r.0@, job@, data@, old(self)@.compress, old(self)@.checksum),
            r.1@ == file_report(
                final(self)@.sent,
                old(self)@.total,
                job.rel@,
                old(self)@.pos,
                data@.len() as u64,
            ),
            final(self)@ == after_inline(old(self)@, data@.len()),
            final(self)@.wf(),
    {
        let frame = encode_inline(job, data, self.compress, self.checksum);
        let len: u64 = data.len() as u64;
        self.sent = self.sent + len;
        let update = report_file(self.sent, self.total, job.rel.as_str(), self.pos, len);
        self.pos = self.pos + 1;
        self.idx = self.idx + 1;
        (frame, update)
    }

    /// Begins a sharded file: the bytes for the control stream.
    pub fn begin_shard(&mut self, job: &Job) -> (r: Vec<u8>)
        requires
            old(self)@.ready(),
            old(self)@.nstreams > 0,
        ensures
            r@ == entry_bytes(shard_entry(job@)),
            final(self)@ == after_shard_header(old(self)@, job.rel@),
            final(self)@.wf(),
    {
        let csize: u64 = CHUNK_SIZE as u64;
        let whole: u64 = job.size / csize;
        let ghost size = job.size;
        assert(whole <= size && whole < u64::MAX && (size + csize - 1) / csize as int == if size
            % csize > 0 {
            whole + 1
        } else {
            whole as int
        }) by (nonlinear_arith)
            requires
                csize == 0x40_0000,
                whole == size / csize,
        ;
        let count: u64 = if job.size % csize > 0 {
            whole + 1
        } else {
            whole
        };
        let e = Entry {
            kind: EntryKind::Sharded {
                nchunks: (count % 0x1_0000_0000) as u32,
                csize: CHUNK_SIZE,
            },
            flags: 0,
            rel: job.rel.clone(),
            size: job.size,
            mtime: job.mtime,
            mode: job.mode,
        };
        let hasher: Option<Xxh3> = if self.checksum {
            Some(Xxh3::new())
        } else {
            None
        };
        self.shard = Some(Shard { rel: job.rel.clone(), offset: 0, pending: Vec::new(), hasher });
        proof {
            let none: Seq<u8> = Seq::empty();
            assert(self@.shard->0.pending =~= none);
        }
        encode_entry(&e)
    }

    /// Takes what a read of the sharded file under way gave; nothing means that
    /// the file is at its end. Reads are gathered to full chunks, which go to the
    /// data streams in turn.
    pub fn on_read(&mut self, data: &[u8]) -> (r: ShardStep)
        requires
            old(self)@.wf(),
            old(self)@.shard is Some,
            read_fits(old(self)@, data@),
        ensures
            ({
                let s = old(self)@;
                let f = s.shard->0;
                if data@.len() == 0 && f.pending.len() == 0 {
                    r is Finished && final(self)@ == after_shard(s)
                } else {
                    final(self)@ == after_read(s, data@) && match chunk_made(s, data@) {
                        Some(chunk) => r matches ShardStep::Chunk { worker, frame, update }
                            && worker == s.worker && frame@ == chunk_bytes(
                            s.idx as u64,
                            f.offset,
                            chunk,
                        ) && update@ == file_report(
                            final(self)@.sent,
                            s.total,
                            f.rel,
                            s.pos,
                            final(self)@.shard->0.offset,
                        ),
                        None => r == ShardStep::More(
                            (CHUNK_SIZE - f.pending.len() - data@.len()) as usize,
                        ),
                    }
                }
            }),
            final(self)@.wf(),
    {
        let mut shard: Option<Shard> = None;
        std::mem::swap(&mut shard, &mut self.shard);
        match shard {
            None => ShardStep::Finished,
            Some(s) => {
                let Shard { rel, offset, pending, hasher } = s;
                let ghost f = old(self)@.shard->0;
                if data.len() == 0 && pending.len() == 0 {
                    let digest: u64 = match &hasher {
                        Some(h) => h.digest(),
                        None => 0,
                    };
                    self.hashes.push((self.idx as u64, digest));
                    self.pos = self.pos + 1;
                    self.idx = self.idx + 1;
                    return ShardStep::Finished;
                }
                let mut all: Vec<u8> = pending;
                all.extend_from_slice(data);
                assert(all@ =~= f.pending + data@);
                let full: usize = CHUNK_SIZE as usize;
                if data.len() > 0 && all.len() < full {
                    let more: usize = full - all.len();
                    self.shard = Some(Shard { rel, offset, pending: all, hasher });
                    assert(self@ == after_part(old(self)@, data@));
                    return ShardStep::More(more);
                }
                let next: Option<Xxh3> = match hasher {
                    Some(h) => {
                        let mut h2 = h;
                        h2.update(all.as_slice());
                        Some(h2)
                    },
                    None => None,
                };
                let frame = encode_chunk(self.idx as u64, offset, all.as_slice());
                let worker: usize = self.worker;
                self.worker = if worker + 1 == self.nstreams as usize {
                    0
                } else {
                    worker + 1
                };
                proof {
                    if worker + 1 == self.nstreams {
                        assert((worker + 1) % self.nstreams as int == 0) by (nonlinear_arith)
                            requires
                                worker + 1 == self.nstreams,
                                self.nstreams > 0,
                        ;
                    } else {
                        vstd::arithmetic::div_mod::lemma_small_mod(
                            (worker + 1) as nat,
                            self.nstreams as nat,
                        );
                    }
                }
                let len: u64 = all.len() as u64;
                let after: u64 = offset + len;
                self.sent = self.sent + len;
                let update = report_file(self.sent, self.total, rel.as_str(), self.pos, after);
                self.shard = Some(Shard { rel, offset: after, pending: Vec::new(), hasher: next });
                proof {
                    let none: Seq<u8> = Seq::empty();
                    assert(self@.shard->0.pending =~= none);
                }
                ShardStep::Chunk { worker, frame, update }
            },
        }
    }

    /// The bytes that end the entries on the control stream.
    pub fn end(&self) -> (r: Vec<u8>)
        ensures
            r@ == end_bytes(self@.hashes),
    {
        encode_end(&self.hashes)
    }
}

/// The first of the data streams that failed.
pub fn first_failure(failed: &Vec<bool>) -> (r: Option<usize>)
    ensures
        match r {
            Some(i) => i < failed@.len() && failed@[i as int] && forall|j: int|
                0 <= j < i ==> !#[trigger] failed@[j],
            None => forall|j: int| 0 <= j < failed@.len() ==> !#[trigger] failed@[j],
        },
{
    let mut i: usize = 0;
    while i < failed.len()
        invariant
            i <= failed@.len(),
            forall|j: int| 0 <= j < i ==> !#[trigger] failed@[j],
        decreases failed@.len() - i,
    {
        if failed[i] {
            return Some(i);
        }
        i = i + 1;
    }
    None
}

// ---------------------------------------------------------------------------
// What holds of a transfer as a whole
// ---------------------------------------------------------------------------

/// The state after a run of chunks of the file under way.
pub open spec fn after_chunks(s: SendState, chunks: Seq<Seq<u8>>) -> SendState
    decreases chunks.len(),
{
    if chunks.len() == 0 {
        s
    } else {
        after_chunk(after_chunks(s, chunks.drop_last()), chunks.last())
    }
}

/// The bytes of a run of reads or chunks, one behind the other.
pub open spec fn joined_reads(reads: Seq<Seq<u8>>) -> Seq<u8>
    decreases reads.len(),
{
    if reads.len() == 0 {
        Seq::empty()
    } else {
        joined_reads(reads.drop_last()) + reads.last()
    }
}

/// However a file is cut into chunks, each chunk is sent for the place at which it
/// stands in the file, the chunks go to the streams in turn, and what is hashed on
/// the way, where a checksum was asked for, is the file itself.
pub proof fn law_chunks_are_hashed_in_order(s: SendState, chunks: Seq<Seq<u8>>)
    requires
        s.nstreams > 0,
        s.worker < s.nstreams,
        s.shard is Some,
        s.shard->0.offset == 0,
        s.shard->0.hashed matches Some(h) ==> h.len() == 0,
        s.sent + joined_reads(chunks).len() <= u64::MAX,
    ensures
        after_chunks(s, chunks).shard is Some,
        after_chunks(s, chunks).shard->0.rel == s.shard->0.rel,
        after_chunks(s, chunks).shard->0.offset == joined_reads(chunks).len(),
        after_chunks(s, chunks).shard->0.hashed == match s.shard->0.hashed {
            Some(_) => Some(joined_reads(chunks)),
            None => None,
        },
        shard_hash(after_chunks(s, chunks)) == match s.shard->0.hashed {
            Some(_) => content_hash(joined_reads(chunks)),
            None => 0,
        },
        after_chunks(s, chunks).worker == (s.worker + chunks.len()) % s.nstreams as int,
        after_chunks(s, chunks).sent == s.sent + joined_reads(chunks).len(),
        after_chunks(s, chunks).nstreams == s.nstreams,
        after_chunks(s, chunks).idx == s.idx,
    decreases chunks.len(),
{
    let n = s.nstreams as int;
    if chunks.len() == 0 {
        vstd::arithmetic::div_mod::lemma_small_mod(s.worker as nat, s.nstreams as nat);
        if s.shard->0.hashed is Some {
            assert(s.shard->0.hashed->0 =~= joined_reads(chunks));
        }
    } else {
        let before = chunks.drop_last();
        law_chunks_are_hashed_in_order(s, before);
        let w = s.worker + before.len();
        vstd::arithmetic::div_mod::lemma_add_mod_noop(w, 1, n);
        vstd::arithmetic::div_mod::lemma_add_mod_noop(w % n, 1, n);
        vstd::arithmetic::div_mod::lemma_mod_twice(w, n);
        vstd::arithmetic::div_mod::lemma_mod_bound(w % n + 1, n);
        assert((w % n + 1) % n == (w + 1) % n);
        assert(w + 1 == s.worker + chunks.len());
    }
}

/// Where a chunk of a file starts.
pub open spec fn chunk_start(i: int) -> int {
    i * 0x40_0000
}

/// The chunks of a file: each of full length but for the last, which holds what is
/// left.
pub open spec fn cuts(content: Seq<u8>) -> Seq<Seq<u8>> {
    Seq::new(chunk_count(content.len()), |i: int| cut(content, i))
}

/// One of the chunks of a file.
pub open spec fn cut(content: Seq<u8>, i: int) -> Seq<u8> {
    let from = chunk_start(i);
    let to = chunk_start(i + 1);
    content.subrange(
        from,
        if to < content.len() {
            to
        } else {
            content.len() as int
        },
    )
}

/// The state after a run of reads of the file under way, and the chunks that were
/// sent on the way.
pub open spec fn after_reads(s: SendState, reads: Seq<Seq<u8>>) -> (SendState, Seq<Seq<u8>>)
    decreases reads.len(),
{
    if reads.len() == 0 {
        (s, Seq::empty())
    } else {
        let (before, chunks) = after_reads(s, reads.drop_last());
        (
            after_read(before, reads.last()),
            match chunk_made(before, reads.last()) {
                Some(c) => chunks.push(c),
                None => chunks,
            },
        )
    }
}

/// Whether each of a run of reads gave something, and no more than was missing
/// from the chunk.
pub open spec fn reads_fit(s: SendState, reads: Seq<Seq<u8>>) -> bool
    decreases reads.len(),
{
    reads.len() > 0 ==> {
        &&& reads_fit(s, reads.drop_last())
        &&& reads.last().len() > 0
        &&& read_fits(after_reads(s, reads.drop_last()).0, reads.last())
    }
}

/// A chunk before the last has full length, and how many are before a place.
pub proof fn lemma_cuts(content: Seq<u8>, i: int)
    requires
        0 <= i < cuts(content).len(),
    ensures
        chunk_start(i) < content.len(),
        cuts(content)[i].len() > 0,
        cuts(content)[i].len() <= CHUNK_SIZE,
        i < cuts(content).len() - 1 ==> cuts(content)[i].len() == CHUNK_SIZE,
        i == cuts(content).len() - 1 ==> chunk_start(i) + cuts(content)[i].len() == content.len(),
        i + 1 < cuts(content).len() <==> chunk_start(i + 1) < content.len(),
{
    let n = content.len() as int;
    let c = CHUNK_SIZE as int;
    let k = chunk_count(content.len()) as int;
    assert(c == 0x40_0000);
    assert(k == (n + 0x3F_FFFF) / 0x40_0000);
}

proof fn lemma_after_reads(s: SendState, reads: Seq<Seq<u8>>)
    requires
        s.nstreams > 0,
        s.worker < s.nstreams,
        s.shard is Some,
        s.shard->0.offset == 0,
        s.shard->0.pending.len() == 0,
        s.shard->0.hashed matches Some(h) ==> h.len() == 0,
        reads_fit(s, reads),
    ensures
        ({
            let (t, chunks) = after_reads(s, reads);
            let read = joined_reads(reads);
            let k = chunks.len() as int;
            &&& t.shard is Some
            &&& t.sent == s.sent + chunk_start(k)
            &&& t.shard->0.offset == chunk_start(k)
            &&& chunk_start(k) <= read.len()
            &&& t.shard->0.pending == read.skip(chunk_start(k))
            &&& t.shard->0.pending.len() < CHUNK_SIZE
            &&& joined_reads(chunks) == read.take(chunk_start(k))
            &&& forall|i: int|
                0 <= i < k ==> #[trigger] chunks[i] == read.subrange(
                    chunk_start(i),
                    chunk_start(i + 1),
                )
            &&& k > 0 ==> t == (SendState {
                shard: Some(
                    ShardState {
                        pending: t.shard->0.pending,
                        ..after_chunks(s, chunks).shard->0
                    },
                ),
                ..after_chunks(s, chunks)
            })
            &&& k == 0 ==> t == (SendState {
                shard: Some(ShardState { pending: t.shard->0.pending, ..s.shard->0 }),
                ..s
            })
        }),
    decreases reads.len(),
{
    let (t, chunks) = after_reads(s, reads);
    let read = joined_reads(reads);
    if reads.len() == 0 {
        assert(t.shard->0.pending =~= read.skip(0));
        assert(joined_reads(chunks) =~= read.take(0));
    } else {
        let (b, before) = after_reads(s, reads.drop_last());
        lemma_after_reads(s, reads.drop_last());
        let had = joined_reads(reads.drop_last());
        let j = before.len() as int;
        let all = b.shard->0.pending + reads.last();
        assert(all =~= read.skip(chunk_start(j)));
        match chunk_made(b, reads.last()) {
            Some(c) => {
                assert(chunks.drop_last() =~= before);
                assert(c =~= read.subrange(chunk_start(j), chunk_start(j + 1)));
                assert forall|i: int| 0 <= i < chunks.len() implies #[trigger] chunks[i]
                    == read.subrange(chunk_start(i), chunk_start(i + 1)) by {
                    if i < j {
                        assert(chunks[i] == before[i]);
                    assert(chunk_start(i + 1) <= chunk_start(j));
                        assert(had.subrange(chunk_start(i), chunk_start(i + 1))
                            =~= read.subrange(chunk_start(i), chunk_start(i + 1)));
                    }
                }
                assert(joined_reads(chunks) =~= read.take(chunk_start(j + 1)));
                assert(t.shard->0.pending =~= read.skip(chunk_start(j + 1)));
            },
            None => {
                assert(joined_reads(chunks) =~= read.take(chunk_start(j)));
                assert forall|i: int| 0 <= i < chunks.len() implies #[trigger] chunks[i]
                    == read.subrange(chunk_start(i), chunk_start(i + 1)) by {
                    assert(chunk_start(i + 1) <= chunk_start(j));
                    assert(had.subrange(chunk_start(i), chunk_start(i + 1)) =~= read.subrange(
                        chunk_start(i),
                        chunk_start(i + 1),
                    ));
                }
            },
        }
    }
}

/// A file goes in the chunks that it has, however it is read: as many as the
/// header of its entry says, each of full length but for the last.
pub proof fn law_file_goes_in_full_chunks(s: SendState, reads: Seq<Seq<u8>>)
    requires
        s.nstreams > 0,
        s.worker < s.nstreams,
        s.shard is Some,
        s.shard->0.offset == 0,
        s.shard->0.pending.len() == 0,
        s.shard->0.hashed matches Some(h) ==> h.len() == 0,
        reads_fit(s, reads),
    ensures
        ({
            let content = joined_reads(reads);
            let (t, chunks) = after_reads(s, reads);
            let none: Seq<u8> = Seq::empty();
            let sent = match chunk_made(t, none) {
                Some(last) => chunks.push(last),
                None => chunks,
            };
            &&& sent == cuts(content)
            &&& sent.len() == chunk_count(content.len())
            &&& chunk_made(after_read(t, none), none) is None
            &&& t.shard->0.pending.len() == 0 || after_read(t, none).shard->0.pending.len() == 0
        }),
{
    let content = joined_reads(reads);
    let (t, chunks) = after_reads(s, reads);
    let none: Seq<u8> = Seq::empty();
    lemma_after_reads(s, reads);
    let k = chunks.len() as int;
    let n = content.len() as int;
    let rest = t.shard->0.pending;
    assert(rest + none =~= rest);
    assert(n == chunk_start(k) + rest.len());
    let sent = match chunk_made(t, none) {
        Some(last) => chunks.push(last),
        None => chunks,
    };
    assert(CHUNK_SIZE == 0x40_0000);
    assert(chunk_count(content.len()) == (n + 0x3F_FFFF) / 0x40_0000);
    assert(sent.len() == chunk_count(content.len()));
    assert forall|i: int| 0 <= i < sent.len() implies sent[i] == #[trigger] cuts(content)[i] by {
        if i < k {
            assert(chunks[i] == content.subrange(chunk_start(i), chunk_start(i + 1)));
            assert(chunk_start(i + 1) <= chunk_start(k));
        }
    }
    assert(sent =~= cuts(content));
}

/// A handshake flag is set exactly where what it stands for was asked for.
pub proof fn law_flags_read_back(compress: bool, checksum: bool, overwrite: bool)
    ensures
        flag_bits(compress, checksum, overwrite) & H_COMPRESS != 0 <==> compress,
        flag_bits(compress, checksum, overwrite) & H_CHECKSUM != 0 <==> checksum,
        flag_bits(compress, checksum, overwrite) & H_OVERWRITE != 0 <==> overwrite,
{
    let c: u16 = if compress {
        1
    } else {
        0
    };
    let k: u16 = if checksum {
        2
    } else {
        0
    };
    let o: u16 = if overwrite {
        4
    } else {
        0
    };
    assert((c | k | o) & 1u16 == c && (c | k | o) & 2u16 == k && (c | k | o) & 4u16 == o)
        by (bit_vector)
        requires
            c == 0 || c == 1,
            k == 0 || k == 2,
            o == 0 || o == 4,
    ;
}

/// A file goes over the data streams just where there are any and it has at least
/// 64 MiB; other files go over the control stream, and folders are only named.
pub proof fn law_large_files_are_spread(j: JobView, nstreams: u8)
    ensures
        job_form(j, nstreams) == Form::Dir <==> j.is_dir,
        job_form(j, nstreams) == Form::Sharded <==> !j.is_dir && j.size >= 0x400_0000 && nstreams
            > 0,
        job_form(j, nstreams) == Form::Inline <==> !j.is_dir && (j.size < 0x400_0000 || nstreams
            == 0),
{
}

/// As many streams are opened as were asked for, up to eight, where there is a large
/// file, and none where there is none.
pub proof fn law_streams_are_as_asked(streams: u8, large: nat)
    ensures
        large > 0 && streams <= 8 ==> stream_count(streams, large) == streams,
        large > 0 && streams > 8 ==> stream_count(streams, large) == 8,
        large == 0 ==> stream_count(streams, large) == 0,
{
}

/// Large files are counted one by one.
pub proof fn law_large_files_are_counted(jobs: Seq<JobView>, j: JobView)
    ensures
        large_count(Seq::empty()) == 0,
        large_count(jobs.push(j)) == large_count(jobs) + if !j.is_dir && j.size >= 0x400_0000 {
            1nat
        } else {
            0nat
        },
{
    let keep = |j: JobView| is_large(j);
    reveal(Seq::filter);
    assert(jobs.push(j).drop_last() =~= jobs);
    assert(jobs.push(j).last() == j);
    assert(Seq::<JobView>::empty().filter(keep) =~= Seq::empty());
}

/// The list of files gives each file, by path and size, in the order of the jobs,
/// and no folder.
pub proof fn law_list_gives_the_files(jobs: Seq<JobView>, j: JobView)
    ensures
        file_list(Seq::empty()).len() == 0,
        j.is_dir ==> file_list(jobs.push(j)) == file_list(jobs),
        !j.is_dir ==> file_list(jobs.push(j)) == file_list(jobs).push((j.rel, j.size)),
{
    let all = jobs.push(j);
    lemma_file_list_next(all, jobs.len() as int);
    assert(all.take(jobs.len() as int) =~= jobs);
    assert(all.take(all.len() as int) =~= all);
    reveal(Seq::filter);
    assert(file_list(Seq::<JobView>::empty()) =~= Seq::empty());
}

/// A handshake tells the receiver what was asked for and what comes: a bit for each
/// option, the token, how many entries there are and how many bytes.
pub proof fn law_handshake_tells_what_comes(
    jobs: Seq<JobView>,
    total: u64,
    opt: SendOptions,
    token: u64,
)
    requires
        jobs.len() <= u64::MAX,
    ensures
        ({
            let h = handshake_for(jobs, total, opt, token);
            &&& h.flags & 1 != 0 <==> opt.compress
            &&& h.flags & 2 != 0 <==> opt.checksum
            &&& h.flags & 4 != 0 <==> opt.overwrite
            &&& h.token == token && h.total == total && h.nfiles == jobs.len()
            &&& h.nstreams <= 8 && h.nstreams <= opt.streams
            &&& h.nstreams > 0 <==> opt.streams > 0 && exists|i: int|
                0 <= i < jobs.len() && !(#[trigger] jobs[i]).is_dir && jobs[i].size >= 0x400_0000
        }),
{
    law_flags_read_back(opt.compress, opt.checksum, opt.overwrite);
    lemma_any_large(jobs);
}

proof fn lemma_any_large(jobs: Seq<JobView>)
    ensures
        large_count(jobs) > 0 <==> exists|i: int|
            0 <= i < jobs.len() && !(#[trigger] jobs[i]).is_dir && jobs[i].size >= 0x400_0000,
    decreases jobs.len(),
{
    if jobs.len() == 0 {
        reveal(Seq::filter);
    } else {
        let before = jobs.drop_last();
        let k = jobs.len() - 1;
        lemma_any_large(before);
        law_large_files_are_counted(before, jobs[k]);
        assert(before.push(jobs[k]) =~= jobs);
        if exists|i: int|
            0 <= i < before.len() && !(#[trigger] before[i]).is_dir && before[i].size
                >= 0x400_0000 {
            let i = choose|i: int|
                0 <= i < before.len() && !(#[trigger] before[i]).is_dir && before[i].size
                    >= 0x400_0000;
            assert(jobs[i] == before[i]);
        }
        if exists|i: int|
            0 <= i < jobs.len() && !(#[trigger] jobs[i]).is_dir && jobs[i].size >= 0x400_0000 {
            let i = choose|i: int|
                0 <= i < jobs.len() && !(#[trigger] jobs[i]).is_dir && jobs[i].size >= 0x400_0000;
            if i < k {
                assert(before[i] == jobs[i]);
            }
        }
    }
}

/// A file is cut into as many chunks as it takes: all of 4 MiB are full but for the
/// last.
pub proof fn law_chunks_are_as_few_as_can_be(size: nat)
    ensures
        size <= chunk_count(size) * 0x40_0000,
        size > 0 ==> (chunk_count(size) - 1) * 0x40_0000 < size,
        size == 0 ==> chunk_count(size) == 0,
{
    assert(CHUNK_SIZE == 0x40_0000);
    assert(chunk_count(size) == (size + 0x3F_FFFF) / 0x40_0000);
}

/// The header of a folder or of a sharded file gives its path, its time and its
/// mode; that of a file gives its size and its chunks of 4 MiB as well.
pub proof fn law_headers_give_what_was_found(j: JobView)
    ensures
        ({
            let d = dir_entry(j);
            &&& d.kind is Dir && d.flags == 0 && d.size == 0
            &&& d.rel == j.rel && d.mtime == j.mtime && d.mode == j.mode
        }),
        ({
            let f = shard_entry(j);
            &&& f.kind is Sharded && f.flags == 0 && f.size == j.size
            &&& f.rel == j.rel && f.mtime == j.mtime && f.mode == j.mode
            &&& f.kind->csize == 0x40_0000
            &&& j.size <= 0x3F_FFFF_FFC0_0000 ==> f.kind->nchunks == chunk_count(j.size as nat)
        }),
{
    assert(CHUNK_SIZE == 0x40_0000);
    let k = chunk_count(j.size as nat);
    assert(k == (j.size + 0x3F_FFFF) / 0x40_0000);
}

/// A file on the control stream goes under its path, its time and its mode, with
/// the number of its bytes, and with their hash just where checksums are asked for.
/// A block goes in place of the bytes just where it is shorter, and the header says
/// so; and it says how many bytes follow.
pub proof fn law_file_goes_with_its_hash(
    j: JobView,
    data: Seq<u8>,
    checksum: bool,
    block: Option<Seq<u8>>,
)
    requires
        data.len() <= u64::MAX,
    ensures
        ({
            let (e, payload) = sent_inline(j, data, checksum, block);
            let shorter = block is Some && block->0.len() < data.len();
            &&& e.kind is Inline
            &&& e.rel == j.rel && e.mtime == j.mtime && e.mode == j.mode
            &&& e.size == data.len()
            &&& checksum ==> e.kind->hash == content_hash(data)
            &&& !checksum ==> e.kind->hash == 0
            &&& shorter ==> payload == block->0 && e.flags == 1
            &&& !shorter ==> payload == data && e.flags == 0
            &&& e.kind->wire_len == payload.len()
        }),
{
}

/// Compression is tried just where it is asked for, on files of more than 1 KiB and
/// at most 8 MiB whose names do not end as those of packed files do.
pub proof fn law_packing_is_tried_where_it_pays(compress: bool, rel: Seq<char>, len: nat)
    ensures
        tries_packing(compress, rel, len) <==> compress && 1024 < len && len <= 0x80_0000
            && !packed_ending(ascii_lowered(rel)),
{
}

/// The hash that is named for a sharded file is that of all the bytes that were
/// sent of it, where checksums are asked for, under the number of its entry.
pub proof fn law_hash_of_a_sharded_file_is_named(s: SendState)
    requires
        s.shard is Some,
        s.idx < usize::MAX,
        s.pos < usize::MAX,
    ensures
        ({
            let t = after_shard(s);
            &&& t.hashes.len() == s.hashes.len() + 1
            &&& t.hashes.drop_last() == s.hashes
            &&& t.hashes.last().0 == s.idx as u64
            &&& s.shard->0.hashed is Some ==> t.hashes.last().1 == content_hash(
                s.shard->0.hashed->0,
            )
            &&& s.shard->0.hashed is None ==> t.hashes.last().1 == 0
            &&& t.idx == s.idx + 1 && t.pos == s.pos + 1 && t.sent == s.sent
            &&& t.shard is None && t.worker == s.worker
        }),
{
    assert(s.hashes.push((s.idx as u64, shard_hash(s))).drop_last() =~= s.hashes);
}

/// A chunk is sent from where the file was, goes on with its hash, and the next one
/// goes to the next stream.
pub proof fn law_chunk_moves_the_file_on(s: SendState, data: Seq<u8>)
    requires
        s.shard is Some,
        s.nstreams > 0,
        s.worker < s.nstreams,
        s.sent + data.len() <= u64::MAX,
        s.shard->0.offset + data.len() <= u64::MAX,
    ensures
        ({
            let t = after_chunk(s, data);
            let f = s.shard->0;
            let g = t.shard->0;
            &&& t.sent == s.sent + data.len()
            &&& t.shard is Some && g.rel == f.rel && g.pending.len() == 0
            &&& g.offset == f.offset + data.len()
            &&& f.hashed is Some ==> g.hashed == Some(f.hashed->0 + data)
            &&& f.hashed is None ==> g.hashed is None
            &&& s.worker + 1 < s.nstreams ==> t.worker == s.worker + 1
            &&& s.worker + 1 == s.nstreams ==> t.worker == 0
            &&& t.idx == s.idx && t.pos == s.pos && t.hashes == s.hashes
        }),
{
    let n = s.nstreams as int;
    if s.worker + 1 < s.nstreams {
        vstd::arithmetic::div_mod::lemma_small_mod((s.worker + 1) as nat, n as nat);
    } else {
        vstd::arithmetic::div_mod::lemma_mod_self_0(n);
    }
}

/// A sending starts at the first entry with nothing sent, counted or named.
pub proof fn law_sending_starts_at_the_first_entry(
    nstreams: u8,
    compress: bool,
    checksum: bool,
    njobs: usize,
    total: u64,
)
    ensures
        ({
            let s = send_start(nstreams, compress, checksum, njobs, total);
            &&& s.nstreams == nstreams && s.compress == compress && s.checksum == checksum
            &&& s.njobs == njobs && s.total == total
            &&& s.idx == 0 && s.pos == 0 && s.worker == 0 && s.sent == 0
            &&& s.hashes.len() == 0 && s.shard is None
        }),
{
}

/// A folder moves the sending on by an entry. A file sent whole moves it on by an entry
/// and a file, and its bytes are counted. A file in chunks begins at its first byte, and
/// is hashed just where checksums are asked for.
pub proof fn law_entries_move_the_sending_on(s: SendState, len: nat, rel: Seq<char>)
    requires
        s.idx < usize::MAX,
        s.pos < usize::MAX,
        s.sent + len <= u64::MAX,
    ensures
        ({
            let t = after_dir(s);
            &&& t.idx == s.idx + 1 && t.pos == s.pos && t.sent == s.sent
            &&& t.hashes == s.hashes && t.shard == s.shard && t.worker == s.worker
        }),
        ({
            let t = after_inline(s, len);
            &&& t.idx == s.idx + 1 && t.pos == s.pos + 1 && t.sent == s.sent + len
            &&& t.hashes == s.hashes && t.shard == s.shard && t.worker == s.worker
        }),
        ({
            let t = after_shard_header(s, rel);
            &&& t.idx == s.idx && t.pos == s.pos && t.sent == s.sent
            &&& t.hashes == s.hashes && t.worker == s.worker
            &&& t.shard is Some && t.shard->0.rel == rel && t.shard->0.offset == 0
            &&& t.shard->0.pending.len() == 0
            &&& t.shard->0.hashed is Some <==> s.checksum
            &&& s.checksum ==> t.shard->0.hashed->0.len() == 0
        }),
{
}

/// What was read of a file waits until it makes a chunk of 4 MiB or the file is at its
/// end; then all of it goes, in the order in which it was read.
pub proof fn law_chunk_waits_until_it_is_full(s: SendState, data: Seq<u8>)
    requires
        s.shard is Some,
        s.shard->0.pending.len() + data.len() <= 0x40_0000,
    ensures
        ({
            let waiting = s.shard->0.pending.len();
            let made = chunk_made(s, data);
            &&& made is Some ==> made->0 == s.shard->0.pending + data
            &&& data.len() == 0 ==> (made is Some <==> waiting > 0)
            &&& data.len() > 0 ==> (made is Some <==> waiting + data.len() == 0x40_0000)
            &&& made is None ==> {
                let t = after_read(s, data);
                &&& t.shard->0.pending == s.shard->0.pending + data
                &&& t.shard->0.offset == s.shard->0.offset
                &&& t.shard->0.hashed == s.shard->0.hashed
                &&& t.sent == s.sent && t.worker == s.worker
            }
            &&& made is Some ==> after_read(s, data) == after_chunk(s, s.shard->0.pending + data)
        }),
{
    assert(CHUNK_SIZE == 0x40_0000);
}

/// The outline of a sending gives the handshake, the files in their order, how many
/// there are, and how many of them are large.
pub proof fn law_outline_gives_the_files(
    o: Outline,
    jobs: Seq<JobView>,
    total: u64,
    opt: SendOptions,
    token: u64,
)
    requires
        outlines(o, jobs, total, opt, token),
    ensures
        o.handshake.token == token && o.handshake.total == total,
        listed(o.files@) == file_list(jobs),
        o.num_files == o.files@.len(),
        o.num_large == large_count(jobs),
        o.num_large > 0 <==> exists|i: int|
            0 <= i < jobs.len() && !(#[trigger] jobs[i]).is_dir && jobs[i].size >= 0x400_0000,
{
    lemma_any_large(jobs);
    assert(listed(o.files@).len() == o.files@.len());
}

/// A file that is sent whole is its header and then bytes from which it is had back: its
/// own where it was not packed, and otherwise a block that holds them.
pub proof fn law_sent_file_is_had_back(
    bytes: Seq<u8>,
    j: JobView,
    data: Seq<u8>,
    compress: bool,
    checksum: bool,
) -> (r: (EntryView, Seq<u8>))
    requires
        is_sent_inline(bytes, j, data, compress, checksum),
        data.len() <= u64::MAX,
    ensures
        bytes == entry_bytes(r.0) + r.1,
        r.0.kind is Inline && r.0.kind->wire_len == r.1.len(),
        r.0.rel == j.rel && r.0.mtime == j.mtime && r.0.mode == j.mode,
        r.0.size == data.len(),
        checksum ==> r.0.kind->hash == content_hash(data),
        !checksum ==> r.0.kind->hash == 0,
        r.0.flags == 0 || r.0.flags == 1,
        r.0.flags == 0 ==> r.1 == data,
        r.0.flags == 1 ==> {
            &&& compress && 1024 < data.len() <= 0x80_0000
            &&& lz4_content(r.1) == Some(data) && r.1.len() < data.len()
        },
{
    let block = choose|block: Option<Seq<u8>>| #[trigger]
        packs(compress, j.rel, data, block) && bytes == item_bytes(
            sent_inline(j, data, checksum, block),
        );
    sent_inline(j, data, checksum, block)
}

} // verus!

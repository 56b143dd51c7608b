//! What is on disk where a transfer was received.

use vstd::prelude::*;

use crate::data_run::{chunks_bytes, is_data_run, law_data_stream_is_taken, Chunk, DataRun};
use crate::jobs::JobView;
use crate::messages::{ack_bytes, chunk_bytes, hello_bytes, law_ack_read_back, AckOutcome};
use crate::outside::content_hash;
use crate::path::destination;
use crate::protocol::{CHUNK_SIZE, H_CHECKSUM, H_OVERWRITE, MAX_CHUNK, MAX_INLINE};
use crate::receiver::{
    after_chunk_written,
    all_arrived,
    arrived,
    faults,
    hash_map,
    ArrivingView,
    RecvState,
};
use crate::receiver_run::{
    any_turn,
    chunk_turn,
    countable,
    effect,
    hash_faults,
    is_recv_run,
    item_faults,
    law_every_mismatch_is_counted,
    lemma_recv_run,
    lemma_recv_session,
    lemma_recv_turn,
    takeable,
    whole_stream,
    Disk,
    RecvRun,
    RecvTurn,
};
use crate::receiving::{DataEvent, PhaseView, RecvAction};
use crate::sender::{chunk_start, cut, cuts, job_form, lemma_cuts, Form};
use crate::sender_run::{
    all_chunks,
    blocks_fit,
    is_send_run,
    job_chunks,
    law_all_is_sent,
    striped,
    Load,
    SendRun,
};
use crate::sending::{SendAction, SendEvent, SendPhase};
use crate::transfer::{
    block_fits,
    deliverable,
    job_item,
    job_items,
    law_inline_file_arrives,
    lemma_job_item_is_good,
    named_hashes,
    written_at,
};

verus! {

// ---------------------------------------------------------------------------
// The chunks of a transfer
// ---------------------------------------------------------------------------

/// Whether a file is cut into chunks.
pub open spec fn sharded(w: Load, i: int) -> bool {
    job_form(w.jobs[i], w.h.nstreams) == Form::Sharded
}

/// Where a job leads to.
pub open spec fn dest(w: Load, i: int) -> Seq<Seq<char>> {
    destination(w.jobs[i].rel)->Ok_0
}

/// All of the chunks of a transfer.
pub open spec fn load_chunks(w: Load) -> Seq<Chunk> {
    all_chunks(w.jobs, w.contents, w.h.nstreams)
}

/// Whether a receiver takes a job with what its file holds: its path leads
/// somewhere, a file on the control stream is not too long, and a file that is cut
/// into chunks is as long as was found.
pub open spec fn receivable_job(w: Load, i: int) -> bool {
    &&& destination(w.jobs[i].rel) is Ok
    &&& job_form(w.jobs[i], w.h.nstreams) == Form::Inline ==> w.contents[i].len() <= MAX_INLINE
    &&& sharded(w, i) ==> w.contents[i].len() == w.jobs[i].size
}

/// Whether a receiver takes what is sent, and no two files lead to one place.
pub open spec fn receivable(w: Load) -> bool {
    &&& w.wf()
    &&& w.jobs.len() <= 0x1000_0000_0000_0000
    &&& forall|i: int| 0 <= i < w.jobs.len() ==> #[trigger] receivable_job(w, i)
    &&& forall|i: int, j: int|
        0 <= i < j < w.jobs.len() && !w.jobs[i].is_dir && !w.jobs[j].is_dir ==> #[trigger] dest(
            w,
            i,
        ) != #[trigger] dest(w, j)
}

/// Whether a chunk is what stands at its place in the file of a job.
spec fn of_file(c: Chunk, jobs: Seq<JobView>, contents: Seq<Seq<u8>>, n: u8) -> bool {
    let i = c.idx as int;
    &&& i < jobs.len()
    &&& job_form(jobs[i], n) == Form::Sharded
    &&& 0 < c.data.len() <= CHUNK_SIZE
    &&& c.offset + c.data.len() <= contents[i].len()
    &&& c.data == contents[i].subrange(c.offset as int, c.offset + c.data.len())
}

/// Whether a byte of a file lies within a chunk.
spec fn holds_byte(c: Chunk, i: int, b: int) -> bool {
    c.idx == i && c.offset <= b < c.offset + c.data.len()
}

/// Whether a byte of a file lies within one of the chunks.
spec fn is_carried(chunks: Seq<Chunk>, i: int, b: int) -> bool {
    exists|g: int| 0 <= g < chunks.len() && holds_byte(#[trigger] chunks[g], i, b)
}

proof fn lemma_own_chunks(j: JobView, k: int, content: Seq<u8>, n: u8)
    requires
        job_form(j, n) == Form::Sharded,
        0 <= k <= u64::MAX,
        content.len() <= u64::MAX,
    ensures
        ({
            let own = job_chunks(j, k as u64, content, n);
            &&& forall|g: int|
                0 <= g < own.len() ==> {
                    let c = #[trigger] own[g];
                    &&& c.idx == k
                    &&& 0 < c.data.len() <= CHUNK_SIZE
                    &&& c.offset == chunk_start(g)
                    &&& c.offset + c.data.len() <= content.len()
                    &&& c.data == content.subrange(c.offset as int, c.offset + c.data.len())
                    &&& g + 1 < own.len() ==> c.offset + c.data.len() == chunk_start(g + 1)
                    &&& g + 1 == own.len() ==> c.offset + c.data.len() == content.len()
                }
            &&& forall|b: int| 0 <= b < content.len() ==> #[trigger] is_carried(own, k, b)
            &&& own.len() == 0 ==> content.len() == 0
        }),
{
    let own = job_chunks(j, k as u64, content, n);
    assert(CHUNK_SIZE == 0x40_0000);
    assert(own.len() == (content.len() + 0x3F_FFFF) / 0x40_0000);
    assert forall|g: int| 0 <= g < own.len() implies {
        let c = #[trigger] own[g];
        &&& c.idx == k
        &&& 0 < c.data.len() <= CHUNK_SIZE
        &&& c.offset == chunk_start(g)
        &&& c.offset + c.data.len() <= content.len()
        &&& c.data == content.subrange(c.offset as int, c.offset + c.data.len())
        &&& g + 1 < own.len() ==> c.offset + c.data.len() == chunk_start(g + 1)
        &&& g + 1 == own.len() ==> c.offset + c.data.len() == content.len()
    } by {
        lemma_cuts(content, g);
        assert(cuts(content)[g] == cut(content, g));
    }
    assert forall|b: int| 0 <= b < content.len() implies #[trigger] is_carried(own, k, b) by {
        let g = b / 0x40_0000;
        assert(0 <= g < own.len());
        assert(holds_byte(own[g], k, b));
    }
}

proof fn lemma_all_chunks(jobs: Seq<JobView>, contents: Seq<Seq<u8>>, n: u8)
    requires
        jobs.len() <= contents.len(),
        jobs.len() <= u64::MAX,
        forall|i: int|
            0 <= i < jobs.len() && job_form(jobs[i], n) == Form::Sharded ==> (
            #[trigger] contents[i]).len() <= u64::MAX,
    ensures
        forall|g: int|
            0 <= g < all_chunks(jobs, contents, n).len() ==> of_file(
                #[trigger] all_chunks(jobs, contents, n)[g],
                jobs,
                contents,
                n,
            ),
        forall|i: int, b: int|
            0 <= i < jobs.len() && job_form(jobs[i], n) == Form::Sharded && 0 <= b
                < contents[i].len() ==> #[trigger] is_carried(all_chunks(jobs, contents, n), i, b),
    decreases jobs.len(),
{
    if jobs.len() > 0 {
        let k = jobs.len() - 1;
        let before = jobs.drop_last();
        let old = all_chunks(before, contents, n);
        let own = job_chunks(jobs[k], k as u64, contents[k], n);
        let all = all_chunks(jobs, contents, n);
        assert(all == old + own);
        lemma_all_chunks(before, contents, n);
        if job_form(jobs[k], n) == Form::Sharded {
            lemma_own_chunks(jobs[k], k, contents[k], n);
        }
        assert forall|g: int| 0 <= g < all.len() implies of_file(
            #[trigger] all[g],
            jobs,
            contents,
            n,
        ) by {
            if g < old.len() {
                assert(all[g] == old[g]);
                assert(of_file(old[g], before, contents, n));
            } else {
                assert(all[g] == own[g - old.len()]);
            }
        }
        assert forall|i: int, b: int|
            0 <= i < jobs.len() && job_form(jobs[i], n) == Form::Sharded && 0 <= b
                < contents[i].len() implies #[trigger] is_carried(all, i, b) by {
            if i < k {
                assert(before[i] == jobs[i]);
                assert(is_carried(old, i, b));
                let g = choose|g: int| 0 <= g < old.len() && holds_byte(#[trigger] old[g], i, b);
                assert(holds_byte(all[g], i, b));
            } else {
                assert(is_carried(own, i, b));
                let g = choose|g: int| 0 <= g < own.len() && holds_byte(#[trigger] own[g], i, b);
                assert(all[old.len() + g] == own[g]);
                assert(holds_byte(all[old.len() + g], i, b));
            }
        }
    }
}

/// How many bytes those of the first `n` chunks have that came and belong to a
/// file.
pub open spec fn came_len(chunks: Seq<Chunk>, came: Set<int>, idx: u64, n: nat) -> nat
    decreases n,
{
    if n == 0 {
        0
    } else {
        came_len(chunks, came, idx, (n - 1) as nat) + if came.contains(n - 1) && chunks[n - 1].idx
            == idx {
            chunks[n - 1].data.len()
        } else {
            0
        }
    }
}

proof fn lemma_came_more(chunks: Seq<Chunk>, came: Set<int>, idx: u64, g: int, n: nat)
    requires
        !came.contains(g),
        0 <= g,
    ensures
        came_len(chunks, came.insert(g), idx, n) == came_len(chunks, came, idx, n) + if g < n
            && chunks[g].idx == idx {
            chunks[g].data.len()
        } else {
            0
        },
    decreases n,
{
    if n > 0 {
        lemma_came_more(chunks, came, idx, g, (n - 1) as nat);
    }
}

proof fn lemma_came_none(chunks: Seq<Chunk>, idx: u64, n: nat)
    ensures
        came_len(chunks, Set::empty(), idx, n) == 0,
    decreases n,
{
    if n > 0 {
        lemma_came_none(chunks, idx, (n - 1) as nat);
    }
}

/// Where as many bytes of a file came as all of its chunks have, all of them came.
proof fn lemma_all_came(chunks: Seq<Chunk>, came: Set<int>, idx: u64, n: nat)
    requires
        n <= chunks.len(),
        forall|g: int| 0 <= g < chunks.len() ==> (#[trigger] chunks[g]).data.len() > 0,
    ensures
        came_len(chunks, came, idx, n) <= came_len(chunks, Set::full(), idx, n),
        came_len(chunks, came, idx, n) == came_len(chunks, Set::full(), idx, n) ==> forall|g: int|
            0 <= g < n && (#[trigger] chunks[g]).idx == idx ==> came.contains(g),
    decreases n,
{
    if n > 0 {
        lemma_all_came(chunks, came, idx, (n - 1) as nat);
        assert(chunks[n - 1].data.len() > 0);
        assert(Set::<int>::full().contains(n - 1));
    }
}

/// The bytes of chunks that stand one behind the other.
proof fn lemma_len_of_both(a: Seq<Chunk>, b: Seq<Chunk>, idx: u64, n: nat)
    requires
        n <= b.len(),
    ensures
        came_len(a + b, Set::full(), idx, a.len() + n) == came_len(a, Set::full(), idx, a.len())
            + came_len(b, Set::full(), idx, n),
    decreases n,
{
    if n > 0 {
        lemma_len_of_both(a, b, idx, (n - 1) as nat);
        assert((a + b)[a.len() + n - 1] == b[n - 1]);
        assert(Set::<int>::full().contains(a.len() + n - 1));
        assert(Set::<int>::full().contains(n - 1));
    } else {
        lemma_len_of_first(a, b, idx, a.len());
    }
}

proof fn lemma_len_of_first(a: Seq<Chunk>, b: Seq<Chunk>, idx: u64, n: nat)
    requires
        n <= a.len(),
    ensures
        came_len(a + b, Set::full(), idx, n) == came_len(a, Set::full(), idx, n),
    decreases n,
{
    if n > 0 {
        lemma_len_of_first(a, b, idx, (n - 1) as nat);
        assert((a + b)[n - 1] == a[n - 1]);
    }
}

proof fn lemma_len_of_others(chunks: Seq<Chunk>, idx: u64, n: nat)
    requires
        n <= chunks.len(),
        forall|g: int| 0 <= g < chunks.len() ==> (#[trigger] chunks[g]).idx != idx,
    ensures
        came_len(chunks, Set::full(), idx, n) == 0,
    decreases n,
{
    if n > 0 {
        lemma_len_of_others(chunks, idx, (n - 1) as nat);
        assert(chunks[n - 1].idx != idx);
    }
}

proof fn lemma_len_of_own(j: JobView, k: int, content: Seq<u8>, nstreams: u8, n: nat)
    requires
        job_form(j, nstreams) == Form::Sharded,
        0 <= k <= u64::MAX,
        content.len() <= u64::MAX,
        n <= job_chunks(j, k as u64, content, nstreams).len(),
    ensures
        ({
            let own = job_chunks(j, k as u64, content, nstreams);
            came_len(own, Set::full(), k as u64, n) == if n < own.len() {
                chunk_start(n as int)
            } else {
                content.len() as int
            }
        }),
    decreases n,
{
    lemma_own_chunks(j, k, content, nstreams);
    if n > 0 {
        lemma_len_of_own(j, k, content, nstreams, (n - 1) as nat);
        let own = job_chunks(j, k as u64, content, nstreams);
        assert(own[n - 1].idx == k);
        assert(Set::<int>::full().contains(n - 1));
    }
}

/// The chunks of a file have as many bytes as the file.
proof fn lemma_file_len(jobs: Seq<JobView>, contents: Seq<Seq<u8>>, n: u8, i: int)
    requires
        jobs.len() <= contents.len(),
        jobs.len() <= u64::MAX,
        forall|i: int|
            0 <= i < jobs.len() && job_form(jobs[i], n) == Form::Sharded ==> (
            #[trigger] contents[i]).len() <= u64::MAX,
        0 <= i < jobs.len(),
        job_form(jobs[i], n) == Form::Sharded,
    ensures
        ({
            let all = all_chunks(jobs, contents, n);
            came_len(all, Set::full(), i as u64, all.len()) == contents[i].len()
        }),
    decreases jobs.len(),
{
    let k = jobs.len() - 1;
    let before = jobs.drop_last();
    let old = all_chunks(before, contents, n);
    let own = job_chunks(jobs[k], k as u64, contents[k], n);
    let all = all_chunks(jobs, contents, n);
    assert(all == old + own);
    lemma_len_of_both(old, own, i as u64, own.len());
    lemma_all_chunks(before, contents, n);
    if i < k {
        lemma_file_len(before, contents, n, i);
        if job_form(jobs[k], n) == Form::Sharded {
            lemma_own_chunks(jobs[k], k, contents[k], n);
        }
        lemma_len_of_others(own, i as u64, own.len());
    } else {
        assert forall|g: int| 0 <= g < old.len() implies (#[trigger] old[g]).idx != i as u64 by {
            assert(of_file(old[g], before, contents, n));
        }
        lemma_len_of_others(old, i as u64, old.len());
        lemma_len_of_own(jobs[k], k, contents[k], n, own.len());
    }
}

// ---------------------------------------------------------------------------
// What is on disk at every turn
// ---------------------------------------------------------------------------

/// Whether one of the first `m` jobs is a file that leads there.
pub open spec fn file_at(w: Load, d: Seq<Seq<char>>, m: int) -> bool {
    exists|i: int| 0 <= i < m && !w.jobs[i].is_dir && #[trigger] dest(w, i) == d
}

/// Whether one of the first `m` jobs is a folder that leads there.
pub open spec fn dir_at(w: Load, d: Seq<Seq<char>>, m: int) -> bool {
    exists|i: int| 0 <= i < m && w.jobs[i].is_dir && #[trigger] dest(w, i) == d
}

/// How many entries were passed.
spec fn passed(r: RecvRun) -> int {
    if r.m.phase is Handshake {
        0
    } else {
        r.m.session.idx as int
    }
}

/// How many jobs have left something on disk.
spec fn made(r: RecvRun) -> int {
    if r.m.phase is Make {
        passed(r) + 1
    } else {
        passed(r)
    }
}

/// Whether a chunk stands in a file.
spec fn stands_in(c: Chunk, file: Seq<u8>) -> bool {
    &&& c.offset + c.data.len() <= file.len()
    &&& file.subrange(c.offset as int, c.offset + c.data.len()) == c.data
}

/// What is on disk of a file, once some chunks came.
spec fn file_holds(
    files: Map<Seq<Seq<char>>, Seq<u8>>,
    w: Load,
    i: int,
    came: Set<int>,
) -> bool {
    let d = dest(w, i);
    &&& files.dom().contains(d)
    &&& if sharded(w, i) {
        &&& files[d].len() == w.contents[i].len()
        &&& forall|g: int| #[trigger]
            came.contains(g) && load_chunks(w)[g].idx == i ==> stands_in(
                load_chunks(w)[g],
                files[d],
            )
    } else {
        files[d] == w.contents[i]
    }
}

/// What is on disk of the first `m` jobs that are files.
spec fn files_hold(
    files: Map<Seq<Seq<char>>, Seq<u8>>,
    w: Load,
    m: int,
    came: Set<int>,
) -> bool {
    forall|i: int| 0 <= i < m && !w.jobs[i].is_dir ==> #[trigger] file_holds(files, w, i, came)
}

/// What lies beside the files of a transfer is what lay there before.
pub open spec fn others_hold(
    files: Map<Seq<Seq<char>>, Seq<u8>>,
    w: Load,
    m: int,
    before: Map<Seq<Seq<char>>, Seq<u8>>,
) -> bool {
    &&& forall|d: Seq<Seq<char>>| #[trigger]
        files.dom().contains(d) ==> before.dom().contains(d) || file_at(w, d, m)
    &&& forall|d: Seq<Seq<char>>| #[trigger]
        before.dom().contains(d) && !file_at(w, d, w.jobs.len() as int) ==> files.dom().contains(d)
            && files[d] == before[d]
}

/// Which folders there are after the first `m` jobs.
pub open spec fn dirs_hold(
    dirs: Set<Seq<Seq<char>>>,
    w: Load,
    m: int,
    before: Set<Seq<Seq<char>>>,
) -> bool {
    forall|d: Seq<Seq<char>>| #[trigger]
        dirs.contains(d) <==> before.contains(d) || dir_at(w, d, m)
}

/// What is known of a sharded file.
spec fn shard_holds(f: ArrivingView, w: Load, k: int, came: Set<int>) -> bool {
    let i = f.idx as int;
    let chunks = load_chunks(w);
    &&& i < k
    &&& sharded(w, i)
    &&& f.dest == dest(w, i)
    &&& f.size == w.jobs[i].size
    &&& !f.kept
    &&& f.received == came_len(chunks, came, f.idx, chunks.len())
}

/// Whether a sharded file is under that number.
spec fn has_shard(shards: Seq<ArrivingView>, i: int) -> bool {
    exists|p: int| 0 <= p < shards.len() && (#[trigger] shards[p]).idx == i
}

/// What is known of the sharded files of the first `k` jobs.
spec fn shards_hold(shards: Seq<ArrivingView>, w: Load, k: int, came: Set<int>) -> bool {
    &&& forall|p: int| 0 <= p < shards.len() ==> shard_holds(#[trigger] shards[p], w, k, came)
    &&& forall|i: int| 0 <= i < k && sharded(w, i) ==> #[trigger] has_shard(shards, i)
    &&& forall|p: int, q: int|
        0 <= p < q < shards.len() ==> (#[trigger] shards[p]).idx < (#[trigger] shards[q]).idx
}

/// Whether all chunks came.
spec fn all_came(w: Load, came: Set<int>) -> bool {
    forall|g: int| 0 <= g < load_chunks(w).len() ==> #[trigger] came.contains(g)
}

/// What holds of the disk at every turn.
spec fn disk_holds(r: RecvRun, w: Load, disk: Disk) -> bool {
    let k = passed(r);
    let chunks = load_chunks(w);
    &&& 0 <= k <= made(r) <= w.jobs.len()
    &&& forall|g: int| #[trigger]
        r.came.contains(g) ==> 0 <= g < chunks.len() && chunks[g].idx < k
    &&& shards_hold(r.m.session.shards, w, k, r.came)
    &&& files_hold(r.disk.files, w, made(r), r.came)
    &&& others_hold(r.disk.files, w, made(r), disk.files)
    &&& dirs_hold(r.disk.dirs, w, k, disk.dirs)
    &&& r.m.phase is Make ==> sharded(w, k)
    &&& r.m.phase is Join || r.m.phase is Verify || r.m.phase is Over ==> {
        &&& k == w.jobs.len()
        &&& all_came(w, r.came)
    }
}

/// Whether nothing is in the way: there is no file where one leads to, or files are
/// replaced.
pub open spec fn is_clear(w: Load, overwrite: bool, disk: Disk) -> bool {
    ||| overwrite
    ||| w.h.flags & H_OVERWRITE != 0
    ||| forall|i: int|
        0 <= i < w.jobs.len() && !w.jobs[i].is_dir ==> !disk.files.dom().contains(
            #[trigger] dest(w, i),
        )
}

proof fn lemma_load_chunks(w: Load)
    requires
        receivable(w),
    ensures
        forall|g: int|
            0 <= g < load_chunks(w).len() ==> of_file(
                #[trigger] load_chunks(w)[g],
                w.jobs,
                w.contents,
                w.h.nstreams,
            ),
        forall|i: int, b: int|
            0 <= i < w.jobs.len() && sharded(w, i) && 0 <= b < w.contents[i].len()
                ==> #[trigger] is_carried(load_chunks(w), i, b),
        forall|i: int|
            0 <= i < w.jobs.len() && #[trigger] sharded(w, i) ==> came_len(
                load_chunks(w),
                Set::full(),
                i as u64,
                load_chunks(w).len(),
            ) == w.contents[i].len(),
{
    let n = w.h.nstreams;
    assert forall|i: int|
        0 <= i < w.jobs.len() && job_form(w.jobs[i], n) == Form::Sharded implies (
    #[trigger] w.contents[i]).len() <= u64::MAX by {
        assert(receivable_job(w, i));
    }
    lemma_all_chunks(w.jobs, w.contents, n);
    assert forall|i: int| 0 <= i < w.jobs.len() && #[trigger] sharded(w, i) implies came_len(
        load_chunks(w),
        Set::full(),
        i as u64,
        load_chunks(w).len(),
    ) == w.contents[i].len() by {
        lemma_file_len(w.jobs, w.contents, n, i);
    }
}

/// A file is placed for the next job.
proof fn lemma_file_placed(
    files: Map<Seq<Seq<char>>, Seq<u8>>,
    w: Load,
    k: int,
    came: Set<int>,
    before: Map<Seq<Seq<char>>, Seq<u8>>,
    content: Seq<u8>,
)
    requires
        receivable(w),
        0 <= k < w.jobs.len(),
        !w.jobs[k].is_dir,
        files_hold(files, w, k, came),
        others_hold(files, w, k, before),
        if sharded(w, k) {
            content.len() == w.contents[k].len()
        } else {
            content == w.contents[k]
        },
        forall|g: int| #[trigger] came.contains(g) ==> load_chunks(w)[g].idx < k,
    ensures
        files_hold(files.insert(dest(w, k), content), w, k + 1, came),
        others_hold(files.insert(dest(w, k), content), w, k + 1, before),
{
    let d = dest(w, k);
    let after = files.insert(d, content);
    assert forall|i: int| 0 <= i < k + 1 && !w.jobs[i].is_dir implies #[trigger] file_holds(
        after,
        w,
        i,
        came,
    ) by {
        if i < k {
            assert(file_holds(files, w, i, came));
            assert(dest(w, i) != dest(w, k));
        }
    }
    assert forall|e: Seq<Seq<char>>| #[trigger]
        after.dom().contains(e) implies before.dom().contains(e) || file_at(w, e, k + 1) by {
        if e != d {
            assert(files.dom().contains(e));
            if file_at(w, e, k) {
                let i = choose|i: int|
                    0 <= i < k && !w.jobs[i].is_dir && #[trigger] dest(w, i) == e;
                assert(dest(w, i) == e);
            }
        }
    }
    assert forall|e: Seq<Seq<char>>| #[trigger]
        before.dom().contains(e) && !file_at(w, e, w.jobs.len() as int) implies {
        after.dom().contains(e) && after[e] == before[e]
    } by {
        assert(e != d);
    }
}

/// Where nothing is in the way, a file of the transfer is not yet there.
proof fn lemma_not_there(
    files: Map<Seq<Seq<char>>, Seq<u8>>,
    w: Load,
    k: int,
    before: Map<Seq<Seq<char>>, Seq<u8>>,
)
    requires
        receivable(w),
        0 <= k < w.jobs.len(),
        !w.jobs[k].is_dir,
        others_hold(files, w, k, before),
        !before.dom().contains(dest(w, k)),
    ensures
        !files.dom().contains(dest(w, k)),
{
    if files.dom().contains(dest(w, k)) {
        let i = choose|i: int|
            0 <= i < k && !w.jobs[i].is_dir && #[trigger] dest(w, i) == dest(w, k);
        assert(dest(w, i) != dest(w, k));
    }
}

/// A job that is no file leaves the files as they are.
proof fn lemma_no_file_placed(
    files: Map<Seq<Seq<char>>, Seq<u8>>,
    w: Load,
    k: int,
    came: Set<int>,
    before: Map<Seq<Seq<char>>, Seq<u8>>,
)
    requires
        w.jobs[k].is_dir,
        files_hold(files, w, k, came),
        others_hold(files, w, k, before),
    ensures
        files_hold(files, w, k + 1, came),
        others_hold(files, w, k + 1, before),
{
    assert forall|e: Seq<Seq<char>>| #[trigger]
        files.dom().contains(e) implies before.dom().contains(e) || file_at(w, e, k + 1) by {
        if file_at(w, e, k) {
            let i = choose|i: int| 0 <= i < k && !w.jobs[i].is_dir && #[trigger] dest(w, i) == e;
            assert(dest(w, i) == e);
        }
    }
}

proof fn lemma_dir_passed(dirs: Set<Seq<Seq<char>>>, w: Load, k: int, before: Set<Seq<Seq<char>>>)
    requires
        0 <= k,
        dirs_hold(dirs, w, k, before),
    ensures
        w.jobs[k].is_dir ==> dirs_hold(dirs.insert(dest(w, k)), w, k + 1, before),
        !w.jobs[k].is_dir ==> dirs_hold(dirs, w, k + 1, before),
{
    assert forall|d: Seq<Seq<char>>|
        dir_at(w, d, k) || (w.jobs[k].is_dir && d == dest(w, k)) <==> #[trigger] dir_at(
            w,
            d,
            k + 1,
        ) by {
        if dir_at(w, d, k) {
            let i = choose|i: int| 0 <= i < k && w.jobs[i].is_dir && #[trigger] dest(w, i) == d;
            assert(dest(w, i) == d);
        }
        if dir_at(w, d, k + 1) {
            let i = choose|i: int| 0 <= i < k + 1 && w.jobs[i].is_dir && #[trigger] dest(w, i) == d;
            assert(dest(w, i) == d);
        }
    }
}

/// A job that is not sharded leaves the sharded files as they are.
proof fn lemma_no_shard_passed(shards: Seq<ArrivingView>, w: Load, k: int, came: Set<int>)
    requires
        shards_hold(shards, w, k, came),
        !sharded(w, k),
    ensures
        shards_hold(shards, w, k + 1, came),
{
    assert forall|p: int| 0 <= p < shards.len() implies shard_holds(
        #[trigger] shards[p],
        w,
        k + 1,
        came,
    ) by {
        assert(shard_holds(shards[p], w, k, came));
    }
}

proof fn lemma_shard_passed(
    shards: Seq<ArrivingView>,
    w: Load,
    k: int,
    came: Set<int>,
    f: ArrivingView,
)
    requires
        shards_hold(shards, w, k, came),
        0 <= k,
        f.idx == k,
        f.received == 0,
        sharded(w, k),
        f.dest == dest(w, k),
        f.size == w.jobs[k].size,
        !f.kept,
        forall|g: int| #[trigger]
            came.contains(g) ==> 0 <= g < load_chunks(w).len() && load_chunks(w)[g].idx < k,
    ensures
        shards_hold(shards.push(f), w, k + 1, came),
{
    let all = shards.push(f);
    lemma_came_no_chunk(load_chunks(w), came, f.idx, load_chunks(w).len());
    assert forall|p: int| 0 <= p < all.len() implies shard_holds(
        #[trigger] all[p],
        w,
        k + 1,
        came,
    ) by {
        if p < shards.len() {
            assert(shard_holds(shards[p], w, k, came));
        }
    }
    assert forall|i: int| 0 <= i < k + 1 && sharded(w, i) implies #[trigger] has_shard(all, i) by {
        if i < k {
            assert(has_shard(shards, i));
            let p = choose|p: int| 0 <= p < shards.len() && (#[trigger] shards[p]).idx == i;
            assert(all[p].idx == i);
        } else {
            assert(all[shards.len() as int].idx == i);
        }
    }
    assert forall|p: int, q: int| 0 <= p < q < all.len() implies (#[trigger] all[p]).idx < (
    #[trigger] all[q]).idx by {
        assert(shard_holds(shards[p], w, k, came));
    }
}

proof fn lemma_came_no_chunk(chunks: Seq<Chunk>, came: Set<int>, idx: u64, n: nat)
    requires
        forall|g: int| #[trigger] came.contains(g) ==> chunks[g].idx != idx,
    ensures
        came_len(chunks, came, idx, n) == 0,
    decreases n,
{
    if n > 0 {
        lemma_came_no_chunk(chunks, came, idx, (n - 1) as nat);
    }
}

/// Where each sharded file has as many bytes as it is long, all chunks came.
proof fn lemma_arrived(s: RecvState, w: Load, came: Set<int>)
    requires
        receivable(w),
        shards_hold(s.shards, w, w.jobs.len() as int, came),
        all_arrived(s),
    ensures
        all_came(w, came),
{
    let chunks = load_chunks(w);
    lemma_load_chunks(w);
    assert forall|g: int| 0 <= g < chunks.len() implies #[trigger] came.contains(g) by {
        assert(of_file(chunks[g], w.jobs, w.contents, w.h.nstreams));
        let i = chunks[g].idx as int;
        assert(sharded(w, i));
        assert(receivable_job(w, i));
        assert(has_shard(s.shards, i));
        let p = choose|p: int| 0 <= p < s.shards.len() && (#[trigger] s.shards[p]).idx == i;
        assert(shard_holds(s.shards[p], w, w.jobs.len() as int, came));
        assert forall|x: int| 0 <= x < chunks.len() implies (#[trigger] chunks[x]).data.len()
            > 0 by {
            assert(of_file(chunks[x], w.jobs, w.contents, w.h.nstreams));
        }
        lemma_all_came(chunks, came, chunks[g].idx, chunks.len());
        assert(s.shards[p].received >= s.shards[p].size);
    }
}

/// A turn on the control connection keeps what holds of the disk.
#[verifier::rlimit(60)]
#[verifier::spinoff_prover]
proof fn lemma_disk_turn(
    r: RecvRun,
    r2: RecvRun,
    w: Load,
    blocks: Seq<Option<Seq<u8>>>,
    overwrite: bool,
    disk: Disk,
)
    requires
        receivable(w),
        blocks.len() == w.jobs.len(),
        blocks_fit(w, blocks),
        is_clear(w, overwrite, disk),
        disk_holds(r, w, disk),
        effect(r, r2, job_items(w.jobs, w.contents, w.h.nstreams, w.checksum, blocks)),
        r.m.phase !is Handshake ==> r.m.session.overwrite == (overwrite || w.h.flags & H_OVERWRITE
            != 0),
        r2.m.phase !is Handshake ==> r2.m.session.overwrite == (overwrite || w.h.flags
            & H_OVERWRITE != 0),
    ensures
        disk_holds(r2, w, disk),
{
    let n = w.h.nstreams;
    let items = job_items(w.jobs, w.contents, n, w.checksum, blocks);
    let k = passed(r);
    let files = r.disk.files;
    match r.m.phase {
        PhaseView::Handshake => {
            assert(r2.m.session.shards =~= r.m.session.shards) by {
                if r.m.session.shards.len() > 0 {
                    assert(shard_holds(r.m.session.shards[0], w, 0, r.came));
                }
            }
        },
        PhaseView::Header => {
            if r2.m.session.idx == k + 1 {
                assert(items[k] == job_item(w.jobs[k], w.contents[k], n, w.checksum, blocks[k]));
                assert(w.jobs[k].is_dir);
                lemma_no_file_placed(files, w, k, r.came, disk.files);
                lemma_dir_passed(r.disk.dirs, w, k, disk.dirs);
                lemma_no_shard_passed(r.m.session.shards, w, k, r.came);
            }
        },
        PhaseView::Payload(_) => {
            assert(items[k] == job_item(w.jobs[k], w.contents[k], n, w.checksum, blocks[k]));
            assert(receivable_job(w, k));
            assert(job_form(w.jobs[k], n) == Form::Inline);
            lemma_job_path(w, k, blocks);
            if !r2.m.session.overwrite {
                assert(!disk.files.dom().contains(dest(w, k)));
                lemma_not_there(files, w, k, disk.files);
            }
            lemma_file_placed(files, w, k, r.came, disk.files, w.contents[k]);
            lemma_dir_passed(r.disk.dirs, w, k, disk.dirs);
            lemma_no_shard_passed(r.m.session.shards, w, k, r.came);
        },
        PhaseView::Look(_) => {
            assert(items[k] == job_item(w.jobs[k], w.contents[k], n, w.checksum, blocks[k]));
            assert(receivable_job(w, k));
            assert(sharded(w, k));
            if !r.m.session.overwrite {
                assert(!disk.files.dom().contains(dest(w, k)));
                lemma_not_there(files, w, k, disk.files);
            }
            let zeros = Seq::new(w.jobs[k].size as nat, |i: int| 0u8);
            lemma_file_placed(files, w, k, r.came, disk.files, zeros);
        },
        PhaseView::Make(_) => {
            assert(items[k] == job_item(w.jobs[k], w.contents[k], n, w.checksum, blocks[k]));
            lemma_dir_passed(r.disk.dirs, w, k, disk.dirs);
            lemma_shard_passed(
                r.m.session.shards,
                w,
                k,
                r.came,
                r2.m.session.shards[r.m.session.shards.len() as int],
            );
        },
        _ => {
            if r2.m.phase is Join {
                lemma_arrived(r.m.session, w, r.came);
            }
        },
    }
}

/// A file on the control stream arrives as it was read.
proof fn lemma_job_path(w: Load, k: int, blocks: Seq<Option<Seq<u8>>>)
    requires
        receivable(w),
        blocks.len() == w.jobs.len(),
        blocks_fit(w, blocks),
        0 <= k < w.jobs.len(),
    ensures
        ({
            let item = job_item(w.jobs[k], w.contents[k], w.h.nstreams, w.checksum, blocks[k]);
            &&& takeable(item)
            &&& item.0.rel == w.jobs[k].rel
            &&& job_form(w.jobs[k], w.h.nstreams) == Form::Inline ==> {
                &&& arrived(item.0, item.1) == Some(w.contents[k])
                &&& forall|checked: bool| #[trigger]
                    faults(
                        item.0,
                        w.contents[k].len(),
                        content_hash(w.contents[k]),
                        checked,
                    ) == 0
            }
        }),
{
    let j = w.jobs[k];
    let content = w.contents[k];
    let n = w.h.nstreams;
    let item = job_item(j, content, n, w.checksum, blocks[k]);
    assert(receivable_job(w, k));
    assert(block_fits(j, content, n, w.compress, blocks[k]));
    assert(deliverable(j, content, n, w.compress, blocks[k]));
    lemma_job_item_is_good(j, content, n, w.compress, w.checksum, blocks[k]);
    if job_form(j, n) == Form::Inline {
        law_inline_file_arrives(j, content, w.compress, w.checksum, blocks[k], true);
        law_inline_file_arrives(j, content, w.compress, w.checksum, blocks[k], false);
        assert forall|checked: bool| #[trigger]
            faults(item.0, content.len(), content_hash(content), checked) == 0 by {}
    }
}

/// A chunk that is written to a file stands in it, and those that stood in it
/// still do.
proof fn lemma_chunk_written(
    files: Map<Seq<Seq<char>>, Seq<u8>>,
    w: Load,
    m: int,
    came: Set<int>,
    g: int,
)
    requires
        receivable(w),
        0 <= m <= w.jobs.len(),
        files_hold(files, w, m, came),
        0 <= g < load_chunks(w).len(),
        load_chunks(w)[g].idx < m,
        forall|x: int| #[trigger] came.contains(x) ==> 0 <= x < load_chunks(w).len(),
    ensures
        ({
            let c = load_chunks(w)[g];
            let d = dest(w, c.idx as int);
            files_hold(
                files.insert(d, written_at(files[d], (c.offset as nat, c.data))),
                w,
                m,
                came.insert(g),
            )
        }),
{
    let chunks = load_chunks(w);
    let c = chunks[g];
    let k = c.idx as int;
    let d = dest(w, k);
    let piece = (c.offset as nat, c.data);
    let file = written_at(files[d], piece);
    let after = files.insert(d, file);
    let more = came.insert(g);
    lemma_load_chunks(w);
    assert(of_file(c, w.jobs, w.contents, w.h.nstreams));
    assert(sharded(w, k));
    assert(file_holds(files, w, k, came));
    assert forall|i: int| 0 <= i < m && !w.jobs[i].is_dir implies #[trigger] file_holds(
        after,
        w,
        i,
        more,
    ) by {
        assert(file_holds(files, w, i, came));
        if i == k {
            assert forall|x: int| #[trigger]
                more.contains(x) && chunks[x].idx == i implies stands_in(chunks[x], file) by {
                let e = chunks[x];
                assert(of_file(e, w.jobs, w.contents, w.h.nstreams));
                let content = w.contents[k];
                assert forall|b: int| e.offset <= b < e.offset + e.data.len() implies file[b]
                    == e.data[b - e.offset] by {
                    assert(e.data[b - e.offset] == content[b]);
                    if c.offset <= b < c.offset + c.data.len() {
                        assert(c.data[b - c.offset] == content[b]);
                    } else {
                        assert(came.contains(x));
                        assert(stands_in(e, files[d]));
                        let sub = files[d].subrange(e.offset as int, e.offset + e.data.len());
                        assert(sub[b - e.offset] == files[d][b]);
                    }
                }
                assert(file.subrange(e.offset as int, e.offset + e.data.len()) =~= e.data);
            }
        } else {
            assert(dest(w, i) != dest(w, k));
            assert forall|x: int| #[trigger] more.contains(x) && chunks[x].idx == i && sharded(
                w,
                i,
            ) implies stands_in(chunks[x], after[dest(w, i)]) by {
                assert(came.contains(x));
            }
        }
    }
}

/// A chunk that came is counted for its file, and for no other.
proof fn lemma_chunk_counted(s: RecvState, w: Load, k: int, came: Set<int>, g: int, i: int)
    requires
        receivable(w),
        0 <= k <= w.jobs.len(),
        shards_hold(s.shards, w, k, came),
        0 <= g < load_chunks(w).len(),
        !came.contains(g),
        0 <= i < s.shards.len(),
        s.shards[i].idx == load_chunks(w)[g].idx,
    ensures
        shards_hold(
            after_chunk_written(s, i, load_chunks(w)[g].data.len() as u64).shards,
            w,
            k,
            came.insert(g),
        ),
{
    let chunks = load_chunks(w);
    let c = chunks[g];
    let more = came.insert(g);
    let all = after_chunk_written(s, i, c.data.len() as u64).shards;
    lemma_load_chunks(w);
    assert(of_file(c, w.jobs, w.contents, w.h.nstreams));
    assert forall|x: int| 0 <= x < chunks.len() implies (#[trigger] chunks[x]).data.len() > 0 by {
        assert(of_file(chunks[x], w.jobs, w.contents, w.h.nstreams));
    }
    assert forall|p: int| 0 <= p < all.len() implies shard_holds(
        #[trigger] all[p],
        w,
        k,
        more,
    ) by {
        assert(shard_holds(s.shards[p], w, k, came));
        let idx = s.shards[p].idx;
        lemma_came_more(chunks, came, idx, g, chunks.len());
        lemma_all_came(chunks, more, idx, chunks.len());
        assert(receivable_job(w, idx as int));
        assert(sharded(w, idx as int));
        if p != i {
            assert(s.shards[p].idx != s.shards[i].idx);
        }
    }
    assert forall|x: int| 0 <= x < k && sharded(w, x) implies #[trigger] has_shard(all, x) by {
        assert(has_shard(s.shards, x));
        let p = choose|p: int| 0 <= p < s.shards.len() && (#[trigger] s.shards[p]).idx == x;
        assert(all[p].idx == x);
    }
    assert forall|p: int, q: int| 0 <= p < q < all.len() implies (#[trigger] all[p]).idx < (
    #[trigger] all[q]).idx by {
        assert(s.shards[p].idx < s.shards[q].idx);
    }
}

/// A chunk that comes keeps what holds of the disk.
proof fn lemma_disk_chunk(r: RecvRun, g: int, i: int, r2: RecvRun, w: Load, disk: Disk)
    requires
        receivable(w),
        disk_holds(r, w, disk),
        chunk_turn(r, g, i, r2, load_chunks(w)),
    ensures
        disk_holds(r2, w, disk),
{
    let chunks = load_chunks(w);
    let s = r.m.session;
    let c = chunks[g];
    let k = passed(r);
    let d = dest(w, c.idx as int);
    assert(shard_holds(s.shards[i], w, k, r.came));
    lemma_chunk_written(r.disk.files, w, made(r), r.came, g);
    lemma_chunk_counted(s, w, k, r.came, g, i);
    assert(file_holds(r.disk.files, w, c.idx as int, r.came)) by {
        assert(sharded(w, c.idx as int));
    }
    let files = r.disk.files;
    let after = r2.disk.files;
    assert(after == files.insert(d, written_at(files[d], (c.offset as nat, c.data))));
    assert forall|e: Seq<Seq<char>>| #[trigger]
        disk.files.dom().contains(e) && !file_at(w, e, w.jobs.len() as int) implies {
        after.dom().contains(e) && after[e] == disk.files[e]
    } by {
        if e == d {
            assert(dest(w, c.idx as int) == e && !w.jobs[c.idx as int].is_dir);
        }
    }
    assert forall|e: Seq<Seq<char>>| #[trigger] after.dom().contains(e) implies {
        disk.files.dom().contains(e) || file_at(w, e, made(r2))
    } by {
        assert(files.dom().contains(e));
    }
}

/// What the receiver reads can be counted.
proof fn lemma_countable(w: Load, blocks: Seq<Option<Seq<u8>>>)
    requires
        receivable(w),
        blocks.len() == w.jobs.len(),
        blocks_fit(w, blocks),
    ensures
        countable(
            job_items(w.jobs, w.contents, w.h.nstreams, w.checksum, blocks),
            named_hashes(w.jobs, w.contents, w.h.nstreams, w.checksum),
        ),
{
    let n = w.h.nstreams;
    let items = job_items(w.jobs, w.contents, n, w.checksum, blocks);
    assert forall|i: int| 0 <= i < items.len() implies #[trigger] takeable(items[i]) by {
        lemma_job_path(w, i, blocks);
    }
    lemma_hashes_held(w.jobs, w.contents, n, w.checksum);
}

/// The hashes that are named at the end are those of the files.
proof fn lemma_hashes_held(
    jobs: Seq<JobView>,
    contents: Seq<Seq<u8>>,
    n: u8,
    checksum: bool,
)
    requires
        jobs.len() <= u64::MAX,
    ensures
        named_hashes(jobs, contents, n, checksum).len() <= jobs.len(),
        forall|x: u64| #[trigger]
            hash_map(named_hashes(jobs, contents, n, checksum)).dom().contains(x) ==> hash_map(
                named_hashes(jobs, contents, n, checksum),
            )[x] == if checksum {
                content_hash(contents[x as int])
            } else {
                0
            },
    decreases jobs.len(),
{
    let all = named_hashes(jobs, contents, n, checksum);
    if jobs.len() > 0 {
        let before = named_hashes(jobs.drop_last(), contents, n, checksum);
        lemma_hashes_held(jobs.drop_last(), contents, n, checksum);
        let k = jobs.len() - 1;
        if job_form(jobs[k], n) == Form::Sharded {
            assert(all.drop_last() =~= before);
            assert(all.last().0 == k as u64);
            assert(hash_map(all) == hash_map(before).insert(k as u64, all.last().1));
        } else {
            assert(all == before);
        }
    } else {
        assert(hash_map(all) == Map::<u64, u64>::empty());
    }
}

proof fn lemma_no_item_faults(w: Load, blocks: Seq<Option<Seq<u8>>>, checked: bool, k: int)
    requires
        receivable(w),
        blocks.len() == w.jobs.len(),
        blocks_fit(w, blocks),
        0 <= k <= w.jobs.len(),
    ensures
        item_faults(
            job_items(w.jobs, w.contents, w.h.nstreams, w.checksum, blocks).take(k),
            checked,
        ) == 0,
    decreases k,
{
    let items = job_items(w.jobs, w.contents, w.h.nstreams, w.checksum, blocks);
    if k > 0 {
        lemma_no_item_faults(w, blocks, checked, k - 1);
        assert(items.take(k).drop_last() =~= items.take(k - 1));
        assert(items.take(k).last() == items[k - 1]);
        lemma_job_path(w, k - 1, blocks);
    }
}

/// A file all of whose chunks came is the file that was sent.
proof fn lemma_file_is_whole(
    files: Map<Seq<Seq<char>>, Seq<u8>>,
    w: Load,
    came: Set<int>,
    i: int,
)
    requires
        receivable(w),
        0 <= i < w.jobs.len(),
        !w.jobs[i].is_dir,
        file_holds(files, w, i, came),
        all_came(w, came),
    ensures
        files.dom().contains(dest(w, i)),
        files[dest(w, i)] == w.contents[i],
{
    let file = files[dest(w, i)];
    let content = w.contents[i];
    let chunks = load_chunks(w);
    lemma_load_chunks(w);
    if sharded(w, i) {
        assert forall|b: int| 0 <= b < content.len() implies file[b] == content[b] by {
            assert(is_carried(chunks, i, b));
            let g = choose|g: int| 0 <= g < chunks.len() && holds_byte(#[trigger] chunks[g], i, b);
            let c = chunks[g];
            assert(of_file(c, w.jobs, w.contents, w.h.nstreams));
            assert(came.contains(g));
            assert(stands_in(c, file));
            let sub = file.subrange(c.offset as int, c.offset + c.data.len());
            assert(sub[b - c.offset] == file[b]);
            assert(c.data[b - c.offset] == content[b]);
        }
        assert(file =~= content);
    }
}

proof fn lemma_no_hash_faults(r: RecvRun, w: Load, disk: Disk, n: nat)
    requires
        receivable(w),
        disk_holds(r, w, disk),
        r.m.phase is Over,
        n <= r.m.session.shards.len(),
    ensures
        hash_faults(
            r.m.session,
            hash_map(named_hashes(w.jobs, w.contents, w.h.nstreams, w.checksum)),
            r.disk,
            n,
        ) == 0,
    decreases n,
{
    if n > 0 {
        lemma_no_hash_faults(r, w, disk, (n - 1) as nat);
        lemma_hashes_held(w.jobs, w.contents, w.h.nstreams, w.checksum);
        let p = n - 1;
        let f = r.m.session.shards[p];
        assert(shard_holds(f, w, passed(r), r.came));
        assert(file_holds(r.disk.files, w, f.idx as int, r.came));
        lemma_file_is_whole(r.disk.files, w, r.came, f.idx as int);
    }
}

proof fn lemma_disk_run(
    runs: Seq<RecvRun>,
    turns: Seq<RecvTurn>,
    overwrite: bool,
    disk: Disk,
    w: Load,
    blocks: Seq<Option<Seq<u8>>>,
    n: int,
)
    requires
        receivable(w),
        blocks.len() == w.jobs.len(),
        blocks_fit(w, blocks),
        is_clear(w, overwrite, disk),
        is_recv_run(
            runs,
            turns,
            overwrite,
            disk,
            whole_stream(
                w.h,
                job_items(w.jobs, w.contents, w.h.nstreams, w.checksum, blocks),
                named_hashes(w.jobs, w.contents, w.h.nstreams, w.checksum),
            ),
            load_chunks(w),
        ),
        0 <= n < runs.len(),
    ensures
        disk_holds(runs[n], w, disk),
    decreases n,
{
    let items = job_items(w.jobs, w.contents, w.h.nstreams, w.checksum, blocks);
    let hashes = named_hashes(w.jobs, w.contents, w.h.nstreams, w.checksum);
    let stream = whole_stream(w.h, items, hashes);
    let chunks = load_chunks(w);
    if n > 0 {
        let r = runs[n - 1];
        let r2 = runs[n];
        lemma_disk_run(runs, turns, overwrite, disk, w, blocks, n - 1);
        lemma_countable(w, blocks);
        lemma_recv_run(runs, turns, overwrite, disk, w.h, items, hashes, chunks, n - 1);
        lemma_recv_run(runs, turns, overwrite, disk, w.h, items, hashes, chunks, n);
        lemma_recv_session(r, overwrite, w.h, items, hashes);
        lemma_recv_session(r2, overwrite, w.h, items, hashes);
        assert(any_turn(runs[n - 1], turns[n - 1], runs[n - 1 + 1], stream, chunks));
        match turns[n - 1] {
            RecvTurn::Step(ev) => {
                lemma_recv_turn(r, ev, r2, overwrite, w.h, items, hashes);
                lemma_disk_turn(r, r2, w, blocks, overwrite, disk);
            },
            RecvTurn::Chunk { g, i } => lemma_disk_chunk(r, g, i, r2, w, disk),
        }
    }
}

// ---------------------------------------------------------------------------
// The data streams
// ---------------------------------------------------------------------------

/// The chunks that go over one of the data streams.
pub open spec fn on_stream(chunks: Seq<Chunk>, nstreams: u8, x: int) -> Seq<Chunk>
    decreases chunks.len(),
{
    if chunks.len() == 0 {
        Seq::empty()
    } else {
        let before = on_stream(chunks.drop_last(), nstreams, x);
        if (chunks.len() - 1) % nstreams as int == x {
            before.push(chunks.last())
        } else {
            before
        }
    }
}

/// The bytes that were put on one of the data streams.
pub open spec fn bytes_on(data: Seq<(usize, Seq<u8>)>, x: int) -> Seq<u8>
    decreases data.len(),
{
    if data.len() == 0 {
        Seq::empty()
    } else {
        bytes_on(data.drop_last(), x) + if data.last().0 == x {
            data.last().1
        } else {
            Seq::empty()
        }
    }
}

/// A data stream holds its chunks, one behind the other.
proof fn lemma_stream_bytes(chunks: Seq<Chunk>, nstreams: u8, x: int)
    requires
        nstreams > 0,
    ensures
        bytes_on(striped(chunks, nstreams), x) == chunks_bytes(on_stream(chunks, nstreams, x)),
        forall|p: int|
            0 <= p < on_stream(chunks, nstreams, x).len() ==> chunks.contains(
                #[trigger] on_stream(chunks, nstreams, x)[p],
            ),
    decreases chunks.len(),
{
    let data = striped(chunks, nstreams);
    let own = on_stream(chunks, nstreams, x);
    if chunks.len() > 0 {
        let before = chunks.drop_last();
        let k = chunks.len() - 1;
        let c = chunks[k];
        lemma_stream_bytes(before, nstreams, x);
        assert(data.drop_last() =~= striped(before, nstreams));
        vstd::arithmetic::div_mod::lemma_mod_bound(k, nstreams as int);
        let old = on_stream(before, nstreams, x);
        if k % nstreams as int == x {
            assert(own.drop_last() =~= old);
            assert(chunks_bytes(own) == chunks_bytes(old) + chunk_bytes(c.idx, c.offset, c.data));
        } else {
            assert(bytes_on(data, x) =~= bytes_on(data.drop_last(), x));
        }
        assert forall|p: int| 0 <= p < own.len() implies chunks.contains(#[trigger] own[p]) by {
            if p < old.len() {
                assert(own[p] == old[p]);
                assert(before.contains(old[p]));
                let g = choose|g: int| 0 <= g < before.len() && before[g] == old[p];
                assert(chunks[g] == own[p]);
            } else {
                assert(own[p] == chunks[k]);
            }
        }
    }
}

/// Each data connection of a transfer takes just the chunks that the sender put on
/// its stream, as they were sent and in that order, and never fails. The sender
/// puts each chunk on one stream: the chunks go round the streams in turn.
pub proof fn law_data_connections_take_all(
    w: Load,
    x: int,
    runs: Seq<DataRun>,
    evs: Seq<DataEvent>,
    n: int,
)
    requires
        receivable(w),
        0 <= x < w.h.nstreams,
        is_data_run(
            runs,
            evs,
            w.h.token,
            hello_bytes(w.h.token) + bytes_on(striped(load_chunks(w), w.h.nstreams), x),
        ),
        0 <= n < runs.len(),
    ensures
        !(runs[n].a is Fail),
        ({
            let own = on_stream(load_chunks(w), w.h.nstreams, x);
            &&& runs[n].came.len() <= own.len()
            &&& runs[n].came == own.take(runs[n].came.len() as int)
            &&& runs[n].a is Finish ==> runs[n].came == own && runs[n].answers == seq![0u8]
        }),
{
    let chunks = load_chunks(w);
    let own = on_stream(chunks, w.h.nstreams, x);
    lemma_stream_bytes(chunks, w.h.nstreams, x);
    lemma_load_chunks(w);
    assert forall|p: int| 0 <= p < own.len() implies 0 < (#[trigger] own[p]).data.len()
        <= MAX_CHUNK by {
        assert(chunks.contains(own[p]));
        let g = choose|g: int| 0 <= g < chunks.len() && chunks[g] == own[p];
        assert(of_file(chunks[g], w.jobs, w.contents, w.h.nstreams));
    }
    law_data_stream_is_taken(runs, evs, w.h.token, own, n);
}

// ---------------------------------------------------------------------------
// Both sides
// ---------------------------------------------------------------------------

/// Whether a transfer is on disk as it was sent, and nothing else has changed.
pub open spec fn is_delivered(w: Load, before: Disk, disk: Disk) -> bool {
    &&& forall|i: int|
        0 <= i < w.jobs.len() && !w.jobs[i].is_dir ==> disk.files.dom().contains(
            #[trigger] dest(w, i),
        ) && disk.files[dest(w, i)] == w.contents[i]
    &&& others_hold(disk.files, w, w.jobs.len() as int, before.files)
    &&& dirs_hold(disk.dirs, w, w.jobs.len() as int, before.dirs)
}

/// A transfer is delivered. Whatever is sent, with whatever options and over
/// however many streams, whatever blocks compression gives, and whenever the chunks
/// come: neither side fails; where the receiver ends, it has counted no mismatch,
/// every file is on disk with the bytes that were sent, every folder is there, and
/// all else is as it was; of each file that came in chunks as many bytes were
/// counted as it has; and where the sender has read the receiver's last answer, it
/// reports success.
pub proof fn law_transfer_is_delivered(
    sent: Seq<SendRun>,
    evs: Seq<SendEvent>,
    w: Load,
    port: u16,
    ack: Seq<u8>,
    m: int,
    runs: Seq<RecvRun>,
    turns: Seq<RecvTurn>,
    overwrite: bool,
    disk: Disk,
    n: int,
)
    requires
        receivable(w),
        is_clear(w, overwrite, disk),
        is_send_run(sent, evs, w, port, ack),
        0 <= m < sent.len(),
        sent[m].m.phase == SendPhase::Ack || sent[m].m.phase == SendPhase::Over,
        is_recv_run(runs, turns, overwrite, disk, sent[m].ctrl, load_chunks(w)),
        0 <= n < runs.len(),
    ensures
        !(sent[m].a is Fail),
        sent[m].data == striped(load_chunks(w), w.h.nstreams),
        !(runs[n].a is Fail) && !(runs[n].a is Refuse),
        runs[n].a matches RecvAction::Finish(answer) ==> {
            &&& answer@ == ack_bytes(0)
            &&& is_delivered(w, disk, runs[n].disk)
            &&& forall|p: int|
                0 <= p < runs[n].m.session.shards.len() ==> {
                    let f = #[trigger] runs[n].m.session.shards[p];
                    f.idx < w.jobs.len() && f.received == w.contents[f.idx as int].len()
                }
            &&& answer@ == ack && sent[m].m.phase == SendPhase::Over ==> sent[m].a
                == SendAction::Finish(AckOutcome::Success)
        },
{
    let blocks = law_all_is_sent(sent, evs, w, port, ack, m);
    let items = job_items(w.jobs, w.contents, w.h.nstreams, w.checksum, blocks);
    let hashes = named_hashes(w.jobs, w.contents, w.h.nstreams, w.checksum);
    let chunks = load_chunks(w);
    let r = runs[n];
    lemma_countable(w, blocks);
    law_every_mismatch_is_counted(
        runs,
        turns,
        overwrite,
        disk,
        w.h,
        items,
        hashes,
        chunks,
        n,
    );
    if r.a is Finish {
        lemma_disk_run(runs, turns, overwrite, disk, w, blocks, n);
        lemma_recv_run(runs, turns, overwrite, disk, w.h, items, hashes, chunks, n);
        lemma_recv_session(r, overwrite, w.h, items, hashes);
        lemma_no_item_faults(w, blocks, w.h.flags & H_CHECKSUM != 0, w.jobs.len() as int);
        assert(items.take(w.jobs.len() as int) =~= items);
        lemma_no_hash_faults(r, w, disk, r.m.session.shards.len());
        law_ack_read_back(0);
        assert forall|i: int|
            0 <= i < w.jobs.len() && !w.jobs[i].is_dir implies r.disk.files.dom().contains(
            #[trigger] dest(w, i),
        ) && r.disk.files[dest(w, i)] == w.contents[i] by {
            assert(file_holds(r.disk.files, w, i, r.came));
            lemma_file_is_whole(r.disk.files, w, r.came, i);
        }
        lemma_load_chunks(w);
        assert forall|p: int| 0 <= p < r.m.session.shards.len() implies {
            let f = #[trigger] r.m.session.shards[p];
            f.idx < w.jobs.len() && f.received == w.contents[f.idx as int].len()
        } by {
            let f = r.m.session.shards[p];
            assert(shard_holds(f, w, passed(r), r.came));
            lemma_came_all(chunks, r.came, f.idx, chunks.len());
            assert(sharded(w, f.idx as int));
        }
    }
}

proof fn lemma_came_all(chunks: Seq<Chunk>, came: Set<int>, idx: u64, n: nat)
    requires
        forall|g: int| 0 <= g < n ==> #[trigger] came.contains(g),
    ensures
        came_len(chunks, came, idx, n) == came_len(chunks, Set::full(), idx, n),
    decreases n,
{
    if n > 0 {
        lemma_came_all(chunks, came, idx, (n - 1) as nat);
        assert(came.contains(n - 1));
        assert(Set::<int>::full().contains(n - 1));
    }
}

} // verus!

//! The sending of a transfer from the handshake to the last answer.

use vstd::prelude::*;

use crate::data_run::Chunk;
use crate::entry::{entry_bytes, EntryView};
use crate::jobs::JobView;
use crate::messages::{
    ack_outcome,
    chunk_bytes,
    end_bytes,
    handshake_bytes,
    law_reply_read_back,
    reply_bytes,
    verdict_bytes,
    AckOutcome,
    Handshake,
    DENIED,
    GREETING_LEN,
    REPLY_LEN,
};
use crate::outside::content_hash;
use crate::progress::{
    done_report,
    error_report,
    list_report,
    mismatch_words,
    opt_update,
    UpdateView,
    DECLINED,
};
use crate::protocol::CHUNK_SIZE;
use crate::sender::{
    chunk_start,
    cut,
    cuts,
    dir_entry,
    file_list,
    is_sent_inline,
    item_bytes,
    job_form,
    lemma_cuts,
    lemma_file_list_next,
    packs,
    send_start,
    sent_inline,
    shard_entry,
    Form,
};
use crate::sending::{
    ending_report,
    fault_report,
    opening_report,
    sending_acts,
    SendAction,
    SendEvent,
    SendFault,
    SendPhase,
    SendingView,
};
use crate::transfer::{block_fits, items_bytes, job_item, job_items, named_hashes};
use crate::wire::lemma_le_bytes_len;

verus! {

broadcast use lemma_le_bytes_len;

/// What is sent: the jobs, what their files hold, and the options.
pub struct Load {
    pub jobs: Seq<JobView>,
    pub contents: Seq<Seq<u8>>,
    pub h: Handshake,
    pub compress: bool,
    pub checksum: bool,
}

/// How many bytes the files of jobs have.
pub open spec fn files_size(jobs: Seq<JobView>, contents: Seq<Seq<u8>>) -> nat
    decreases jobs.len(),
{
    if jobs.len() == 0 {
        0
    } else {
        files_size(jobs.drop_last(), contents) + if jobs.last().is_dir {
            0
        } else {
            contents[jobs.len() - 1].len()
        }
    }
}

impl Load {
    /// Whether it can be counted.
    pub open spec fn wf(self) -> bool {
        &&& self.jobs.len() == self.contents.len()
        &&& self.jobs.len() <= usize::MAX
        &&& files_size(self.jobs, self.contents) <= u64::MAX
    }
}

/// The chunks of one job, where its file is sharded.
pub open spec fn job_chunks(j: JobView, idx: u64, content: Seq<u8>, nstreams: u8) -> Seq<Chunk> {
    if job_form(j, nstreams) == Form::Sharded {
        Seq::new(
            cuts(content).len(),
            |i: int| Chunk { idx, offset: chunk_start(i) as u64, data: cut(content, i) },
        )
    } else {
        Seq::empty()
    }
}

/// The chunks of jobs, in their order.
pub open spec fn all_chunks(
    jobs: Seq<JobView>,
    contents: Seq<Seq<u8>>,
    nstreams: u8,
) -> Seq<Chunk>
    decreases jobs.len(),
{
    if jobs.len() == 0 {
        Seq::empty()
    } else {
        let k = jobs.len() - 1;
        all_chunks(jobs.drop_last(), contents, nstreams) + job_chunks(
            jobs[k],
            k as u64,
            contents[k],
            nstreams,
        )
    }
}

/// Chunks on the data streams, in turn: the stream, and the bytes on it.
pub open spec fn striped(chunks: Seq<Chunk>, nstreams: u8) -> Seq<(usize, Seq<u8>)> {
    Seq::new(
        chunks.len(),
        |i: int|
            (
                (i % nstreams as int) as usize,
                chunk_bytes(chunks[i].idx, chunks[i].offset, chunks[i].data),
            ),
    )
}

/// Where the sending of a transfer stands: its state, what is to be done next,
/// and all that went over the control stream and over the data streams.
pub struct SendRun {
    pub m: SendingView,
    pub a: SendAction,
    pub ctrl: Seq<u8>,
    pub data: Seq<(usize, Seq<u8>)>,
}

/// A transfer whose handshake was sent.
pub open spec fn send_begun(r: SendRun, w: Load) -> bool {
    &&& r.m.handshake == w.h
    &&& r.m.phase == SendPhase::Reply
    &&& r.m.got.len() == 0
    &&& r.m.jobs == w.jobs
    &&& r.m.session == send_start(
        w.h.nstreams,
        w.compress,
        w.checksum,
        w.jobs.len() as usize,
        w.h.total,
    )
    &&& r.a == SendAction::Read(GREETING_LEN)
    &&& r.ctrl == handshake_bytes(w.h)
    &&& r.data.len() == 0
}

/// Whether a read gave the bytes of a file from a place on: none only at its end.
pub open spec fn read_from(b: Seq<u8>, content: Seq<u8>, pos: int) -> bool {
    &&& pos + b.len() <= content.len()
    &&& b == content.subrange(pos, pos + b.len())
    &&& b.len() == 0 <==> pos == content.len()
}

/// What was asked for is done: the receiver agrees and answers with `ack` at the
/// end, and files are read as they are.
pub open spec fn send_served(r: SendRun, ev: SendEvent, w: Load, port: u16, ack: Seq<u8>) -> bool {
    let s = r.m.session;
    match r.m.phase {
        SendPhase::Reply => {
            let from = r.m.got.len() as int;
            r.a matches SendAction::Read(n) && (ev matches SendEvent::Bytes(b) && b@
                == reply_bytes(0, port).subrange(from, from + n))
        },
        SendPhase::Streams(_) => ev == SendEvent::Answer(0),
        SendPhase::Entries => ev is Done,
        SendPhase::File => ev matches SendEvent::Content(b) && b@ == w.contents[s.idx as int],
        SendPhase::Shard => ev matches SendEvent::Part(b) && b@.len() + s.shard->0.pending.len()
            <= CHUNK_SIZE && read_from(
            b@,
            w.contents[s.idx as int],
            s.shard->0.offset + s.shard->0.pending.len(),
        ),
        SendPhase::Flush => ev is Done,
        SendPhase::Ack => ev matches SendEvent::Bytes(b) && b@ == ack,
        SendPhase::Over => false,
    }
}

/// What an action puts on the control stream.
pub open spec fn on_control(a: SendAction) -> Seq<u8> {
    match a {
        SendAction::Send { bytes, .. } => bytes@,
        SendAction::OpenShard { bytes, .. } => bytes@,
        SendAction::SendEnd(bytes) => bytes@,
        _ => Seq::empty(),
    }
}

/// What an action puts on the data streams.
pub open spec fn on_data(a: SendAction) -> Seq<(usize, Seq<u8>)> {
    match a {
        SendAction::SendChunk { worker, frame, .. } => seq![(worker, frame@)],
        _ => Seq::empty(),
    }
}

/// One turn of the sending of a transfer.
pub open spec fn send_turn(
    r: SendRun,
    ev: SendEvent,
    r2: SendRun,
    w: Load,
    port: u16,
    ack: Seq<u8>,
) -> bool {
    &&& send_served(r, ev, w, port, ack)
    &&& sending_acts(r.m, ev, r2.m, r2.a)
    &&& r2.ctrl == r.ctrl + on_control(r2.a)
    &&& r2.data == r.data + on_data(r2.a)
}

/// The sending of a transfer, turn by turn.
pub open spec fn is_send_run(
    runs: Seq<SendRun>,
    evs: Seq<SendEvent>,
    w: Load,
    port: u16,
    ack: Seq<u8>,
) -> bool {
    &&& runs.len() == evs.len() + 1
    &&& send_begun(runs[0], w)
    &&& forall|i: int|
        0 <= i < evs.len() ==> #[trigger] send_turn(runs[i], evs[i], runs[i + 1], w, port, ack)
}

/// What went over the control stream for the first `k` jobs.
pub open spec fn control_stream(w: Load, k: int, blocks: Seq<Option<Seq<u8>>>) -> Seq<u8> {
    handshake_bytes(w.h) + items_bytes(
        job_items(w.jobs.take(k), w.contents, w.h.nstreams, w.checksum, blocks),
    )
}

/// Whether compression gave these blocks for the first jobs.
pub open spec fn blocks_fit(w: Load, blocks: Seq<Option<Seq<u8>>>) -> bool {
    forall|i: int|
        0 <= i < blocks.len() ==> block_fits(
            w.jobs[i],
            w.contents[i],
            w.h.nstreams,
            w.compress,
            #[trigger] blocks[i],
        )
}

/// How far a sharded file under way has come.
spec fn shard_holds(r: SendRun, w: Load, blocks: Seq<Option<Seq<u8>>>) -> bool {
    let s = r.m.session;
    let n = w.h.nstreams;
    let k = s.idx as int;
    let f = s.shard->0;
    let j = w.jobs[k];
    let content = w.contents[k];
    let before = all_chunks(w.jobs.take(k), w.contents, n);
    let own = job_chunks(j, k as u64, content, n);
    let c = r.data.len() - before.len();
    &&& k < w.jobs.len()
    &&& n > 0
    &&& job_form(j, n) == Form::Sharded
    &&& s.shard is Some
    &&& r.ctrl == control_stream(w, k, blocks) + entry_bytes(shard_entry(j))
    &&& 0 <= c <= own.len()
    &&& r.data == striped(before + own.take(c), n)
    &&& s.sent == files_size(w.jobs.take(k), w.contents) + f.offset
    &&& f.offset <= content.len()
    &&& c < own.len() ==> f.offset == chunk_start(c)
    &&& c == own.len() ==> f.offset == content.len()
    &&& f.offset + f.pending.len() <= content.len()
    &&& f.pending == content.subrange(f.offset as int, f.offset + f.pending.len())
    &&& f.pending.len() < CHUNK_SIZE
    &&& f.hashed == if w.checksum {
        Some(content.take(f.offset as int))
    } else {
        None
    }
}

/// What holds of the sending of a transfer at every turn.
spec fn send_holds(
    r: SendRun,
    w: Load,
    port: u16,
    ack: Seq<u8>,
    blocks: Seq<Option<Seq<u8>>>,
) -> bool {
    let s = r.m.session;
    let n = w.h.nstreams;
    let k = s.idx as int;
    let at_entry = {
        &&& s.shard is None
        &&& s.sent == files_size(w.jobs.take(k), w.contents)
        &&& r.data == striped(all_chunks(w.jobs.take(k), w.contents, n), n)
    };
    &&& r.m.jobs == w.jobs
    &&& r.m.handshake == w.h
    &&& s.nstreams == n
    &&& s.compress == w.compress
    &&& s.checksum == w.checksum
    &&& s.njobs == w.jobs.len()
    &&& k <= w.jobs.len()
    &&& blocks.len() == k
    &&& blocks_fit(w, blocks)
    &&& s.hashes == named_hashes(w.jobs.take(k), w.contents, n, w.checksum)
    &&& n > 0 ==> s.worker == r.data.len() as int % n as int
    &&& match r.m.phase {
        SendPhase::Reply => at_entry && k == 0 && r.ctrl == control_stream(w, k, blocks)
            && r.m.got.len() < REPLY_LEN && r.m.got == reply_bytes(0, port).take(
            r.m.got.len() as int,
        ) && (r.a matches SendAction::Read(m) && m > 0 && r.m.got.len() + m <= REPLY_LEN),
        SendPhase::Streams(x) => at_entry && k == 0 && x < n && r.ctrl == control_stream(
            w,
            k,
            blocks,
        ),
        SendPhase::Entries => at_entry && r.ctrl == control_stream(w, k, blocks),
        SendPhase::File => at_entry && r.ctrl == control_stream(w, k, blocks) && k < w.jobs.len()
            && job_form(w.jobs[k], n) == Form::Inline,
        SendPhase::Shard => shard_holds(r, w, blocks),
        SendPhase::Flush => at_entry && k == w.jobs.len() && r.ctrl == control_stream(w, k, blocks),
        SendPhase::Ack => at_entry && k == w.jobs.len() && r.ctrl == control_stream(w, k, blocks)
            + end_bytes(s.hashes),
        SendPhase::Over => at_entry && k == w.jobs.len() && r.ctrl == control_stream(w, k, blocks)
            + end_bytes(s.hashes) && r.a == SendAction::Finish(ack_outcome(ack)),
    }
    &&& !(r.a is Fail)
}

pub proof fn lemma_items_push(items: Seq<(EntryView, Seq<u8>)>, x: (EntryView, Seq<u8>))
    ensures
        items_bytes(items.push(x)) == items_bytes(items) + item_bytes(x),
    decreases items.len(),
{
    let all = items.push(x);
    if items.len() == 0 {
        assert(all.drop_first() =~= items);
        assert(items_bytes(items) =~= Seq::empty());
        assert(all[0] == x);
        assert(items_bytes(all) =~= items_bytes(items) + item_bytes(x));
    } else {
        lemma_items_push(items.drop_first(), x);
        assert(all.drop_first() =~= items.drop_first().push(x));
        assert(items_bytes(all) =~= items_bytes(items) + item_bytes(x));
    }
}

proof fn lemma_size_before(jobs: Seq<JobView>, contents: Seq<Seq<u8>>, k: int)
    requires
        0 <= k <= jobs.len(),
    ensures
        files_size(jobs.take(k), contents) <= files_size(jobs, contents),
    decreases jobs.len(),
{
    if k == jobs.len() {
        assert(jobs.take(k) =~= jobs);
    } else {
        lemma_size_before(jobs.drop_last(), contents, k);
        assert(jobs.drop_last().take(k) =~= jobs.take(k));
    }
}

proof fn lemma_next_worker(len: nat, n: u8)
    requires
        n > 0,
    ensures
        (len as int % n as int + 1) % n as int == (len + 1) as int % n as int,
        0 <= len as int % n as int,
        (len as int % n as int) < n,
{
    let d = n as int;
    vstd::arithmetic::div_mod::lemma_add_mod_noop(len as int, 1, d);
    vstd::arithmetic::div_mod::lemma_add_mod_noop(len as int % d, 1, d);
    vstd::arithmetic::div_mod::lemma_mod_twice(len as int, d);
    vstd::arithmetic::div_mod::lemma_mod_bound(len as int, d);
}

/// The control stream grows by what is due for a job.
proof fn lemma_control_grows(w: Load, k: int, blocks: Seq<Option<Seq<u8>>>, block: Option<Seq<u8>>)
    requires
        w.wf(),
        0 <= k < w.jobs.len(),
        blocks.len() == k,
    ensures
        control_stream(w, k + 1, blocks.push(block)) == control_stream(w, k, blocks) + item_bytes(
            job_item(w.jobs[k], w.contents[k], w.h.nstreams, w.checksum, block),
        ),
{
    let n = w.h.nstreams;
    let items = job_items(w.jobs.take(k), w.contents, n, w.checksum, blocks);
    let more = job_items(w.jobs.take(k + 1), w.contents, n, w.checksum, blocks.push(block));
    let x = job_item(w.jobs[k], w.contents[k], n, w.checksum, block);
    assert(more =~= items.push(x));
    lemma_items_push(items, x);
    assert(control_stream(w, k + 1, blocks.push(block)) =~= control_stream(w, k, blocks)
        + item_bytes(x));
}

/// What changes from one job to the next.
proof fn lemma_next_job(w: Load, k: int)
    requires
        w.wf(),
        0 <= k < w.jobs.len(),
    ensures
        ({
            let n = w.h.nstreams;
            let j = w.jobs[k];
            let now = w.jobs.take(k);
            let then = w.jobs.take(k + 1);
            let hashes = named_hashes(now, w.contents, n, w.checksum);
            &&& files_size(then, w.contents) == files_size(now, w.contents) + if j.is_dir {
                0
            } else {
                w.contents[k].len()
            }
            &&& files_size(then, w.contents) <= u64::MAX
            &&& all_chunks(then, w.contents, n) == all_chunks(now, w.contents, n) + job_chunks(
                j,
                k as u64,
                w.contents[k],
                n,
            )
            &&& named_hashes(then, w.contents, n, w.checksum) == if job_form(j, n)
                == Form::Sharded {
                hashes.push(
                    (
                        k as u64,
                        if w.checksum {
                            content_hash(w.contents[k])
                        } else {
                            0
                        },
                    ),
                )
            } else {
                hashes
            }
        }),
{
    let then = w.jobs.take(k + 1);
    assert(then.drop_last() =~= w.jobs.take(k));
    assert(then.last() == w.jobs[k]);
    lemma_size_before(w.jobs, w.contents, k + 1);
}

proof fn lemma_entry_turn(
    r: SendRun,
    ev: SendEvent,
    r2: SendRun,
    w: Load,
    port: u16,
    ack: Seq<u8>,
    blocks: Seq<Option<Seq<u8>>>,
) -> (more: Seq<Option<Seq<u8>>>)
    requires
        w.wf(),
        send_holds(r, w, port, ack, blocks),
        send_turn(r, ev, r2, w, port, ack),
        r.m.phase == SendPhase::Entries,
    ensures
        send_holds(r2, w, port, ack, more),
{
    let k = r.m.session.idx as int;
    let n = w.h.nstreams;
    let none: Seq<u8> = Seq::empty();
    assert(r2.data =~= r.data);
    if k == w.jobs.len() {
        assert(r2.ctrl =~= r.ctrl);
        blocks
    } else {
        let j = w.jobs[k];
        match job_form(j, n) {
            Form::Dir => {
                lemma_next_job(w, k);
                lemma_control_grows(w, k, blocks, None);
                let more = blocks.push(None);
                assert(item_bytes(job_item(j, w.contents[k], n, w.checksum, None))
                    =~= entry_bytes(dir_entry(j)));
                let chunks = all_chunks(w.jobs.take(k), w.contents, n);
                assert(chunks + Seq::<Chunk>::empty() =~= chunks);
                assert(blocks_fit(w, more));
                more
            },
            Form::Inline => {
                assert(r2.ctrl =~= r.ctrl);
                blocks
            },
            Form::Sharded => {
                let before = all_chunks(w.jobs.take(k), w.contents, n);
                let own = job_chunks(j, k as u64, w.contents[k], n);
                let content = w.contents[k];
                assert(before + own.take(0) =~= before);
                assert(r2.m.session.shard->0.pending =~= content.subrange(0, 0));
                assert(content.take(0) =~= none);
                assert(own.len() == 0 ==> content.len() == 0) by {
                    assert(CHUNK_SIZE == 0x40_0000);
                }
                blocks
            },
        }
    }
}

proof fn lemma_file_turn(
    r: SendRun,
    ev: SendEvent,
    r2: SendRun,
    w: Load,
    port: u16,
    ack: Seq<u8>,
    blocks: Seq<Option<Seq<u8>>>,
) -> (more: Seq<Option<Seq<u8>>>)
    requires
        w.wf(),
        send_holds(r, w, port, ack, blocks),
        send_turn(r, ev, r2, w, port, ack),
        r.m.phase == SendPhase::File,
    ensures
        send_holds(r2, w, port, ack, more),
{
    let s = r.m.session;
    let k = s.idx as int;
    let n = w.h.nstreams;
    let j = w.jobs[k];
    let content = w.contents[k];
    lemma_next_job(w, k);
    let bytes = r2.a->Send_bytes@;
    assert(is_sent_inline(bytes, j, content, w.compress, w.checksum));
    let block = choose|block: Option<Seq<u8>>| #[trigger]
        packs(w.compress, j.rel, content, block) && bytes == item_bytes(
            sent_inline(j, content, w.checksum, block),
        );
    lemma_control_grows(w, k, blocks, block);
    let more = blocks.push(block);
    let chunks = all_chunks(w.jobs.take(k), w.contents, n);
    assert(chunks + Seq::<Chunk>::empty() =~= chunks);
    assert(r2.data =~= r.data);
    assert(blocks_fit(w, more));
    more
}

proof fn lemma_shard_turn(
    r: SendRun,
    ev: SendEvent,
    r2: SendRun,
    w: Load,
    port: u16,
    ack: Seq<u8>,
    blocks: Seq<Option<Seq<u8>>>,
) -> (more: Seq<Option<Seq<u8>>>)
    requires
        w.wf(),
        send_holds(r, w, port, ack, blocks),
        send_turn(r, ev, r2, w, port, ack),
        r.m.phase == SendPhase::Shard,
    ensures
        send_holds(r2, w, port, ack, more),
{
    let s = r.m.session;
    let k = s.idx as int;
    let n = w.h.nstreams;
    let j = w.jobs[k];
    let content = w.contents[k];
    let f = s.shard->0;
    let b = ev->Part_0@;
    let before = all_chunks(w.jobs.take(k), w.contents, n);
    let own = job_chunks(j, k as u64, content, n);
    let c = r.data.len() - before.len();
    let all = f.pending + b;
    lemma_next_job(w, k);
    lemma_next_worker(r.data.len(), n);
    assert(all =~= content.subrange(f.offset as int, f.offset + all.len()));
    if c < own.len() {
        lemma_cuts(content, c);
    }
    if all.len() == 0 {
        assert(c == own.len());
        assert(own.take(c) =~= own);
        assert(content.take(content.len() as int) =~= content);
        lemma_control_grows(w, k, blocks, None);
        let more = blocks.push(None);
        assert(item_bytes(job_item(j, content, n, w.checksum, None)) =~= entry_bytes(
            shard_entry(j),
        ));
        assert(r2.ctrl =~= r.ctrl);
        assert(r2.data =~= r.data);
        assert(blocks_fit(w, more));
        more
    } else if b.len() == 0 || all.len() == CHUNK_SIZE {
        assert(c < own.len());
        assert(all =~= cut(content, c));
        assert(own.take(c + 1) =~= own.take(c).push(own[c]));
        assert(r2.data =~= striped(before + own.take(c + 1), n)) by {
            let now = before + own.take(c);
            let then = before + own.take(c + 1);
            assert(then =~= now.push(own[c]));
            assert(r2.data.len() == then.len());
            assert forall|i: int| 0 <= i < then.len() implies r2.data[i] == #[trigger] striped(
                then,
                n,
            )[i] by {
                if i < now.len() {
                    assert(r2.data[i] == r.data[i]);
                    assert(then[i] == now[i]);
                    assert(r.data[i] == striped(now, n)[i]);
                }
            }
        }
        assert(r2.ctrl =~= r.ctrl);
        let g = r2.m.session.shard->0;
        assert(g.pending =~= content.subrange(g.offset as int, g.offset as int));
        assert(content.take(f.offset as int) + all =~= content.take(g.offset as int));
        blocks
    } else {
        assert(c < own.len());
        assert(r2.ctrl =~= r.ctrl);
        assert(r2.data =~= r.data);
        blocks
    }
}

proof fn lemma_send_turn(
    r: SendRun,
    ev: SendEvent,
    r2: SendRun,
    w: Load,
    port: u16,
    ack: Seq<u8>,
    blocks: Seq<Option<Seq<u8>>>,
) -> (more: Seq<Option<Seq<u8>>>)
    requires
        w.wf(),
        send_holds(r, w, port, ack, blocks),
        send_turn(r, ev, r2, w, port, ack),
    ensures
        send_holds(r2, w, port, ack, more),
{
    match r.m.phase {
        SendPhase::Reply => {
            let all = reply_bytes(0, port);
            law_reply_read_back(0, port);
            let b = ev->Bytes_0@;
            let got = r.m.got + b;
            assert(all.len() == REPLY_LEN);
            assert(got =~= all.take(got.len() as int));
            if got.len() == REPLY_LEN {
                assert(all.take(got.len() as int) =~= all);
            }
            assert(r2.ctrl =~= r.ctrl);
            assert(r2.data =~= r.data);
            blocks
        },
        SendPhase::Entries => lemma_entry_turn(r, ev, r2, w, port, ack, blocks),
        SendPhase::File => lemma_file_turn(r, ev, r2, w, port, ack, blocks),
        SendPhase::Shard => lemma_shard_turn(r, ev, r2, w, port, ack, blocks),
        _ => {
            assert(r2.data =~= r.data);
            if !(r2.a is SendEnd) {
                assert(r2.ctrl =~= r.ctrl);
            }
            blocks
        },
    }
}

proof fn lemma_send_run(
    runs: Seq<SendRun>,
    evs: Seq<SendEvent>,
    w: Load,
    port: u16,
    ack: Seq<u8>,
    i: int,
) -> (blocks: Seq<Option<Seq<u8>>>)
    requires
        w.wf(),
        is_send_run(runs, evs, w, port, ack),
        0 <= i < runs.len(),
    ensures
        send_holds(runs[i], w, port, ack, blocks),
    decreases i,
{
    if i == 0 {
        let blocks: Seq<Option<Seq<u8>>> = Seq::empty();
        let r = runs[0];
        assert(w.jobs.take(0) =~= Seq::empty());
        assert(job_items(w.jobs.take(0), w.contents, w.h.nstreams, w.checksum, blocks)
            =~= Seq::empty());
        assert(control_stream(w, 0, blocks) =~= handshake_bytes(w.h));
        let n = w.h.nstreams;
        assert(r.data =~= striped(all_chunks(w.jobs.take(0), w.contents, n), n));
        assert(r.m.got =~= reply_bytes(0, port).take(0));
        assert(r.m.session.hashes =~= named_hashes(
            w.jobs.take(0),
            w.contents,
            w.h.nstreams,
            w.checksum,
        ));
        if w.h.nstreams > 0 {
            vstd::arithmetic::div_mod::lemma_small_mod(0, w.h.nstreams as nat);
        }
        blocks
    } else {
        let blocks = lemma_send_run(runs, evs, w, port, ack, i - 1);
        assert(send_turn(runs[i - 1], evs[i - 1], runs[i - 1 + 1], w, port, ack));
        lemma_send_turn(runs[i - 1], evs[i - 1], runs[i], w, port, ack, blocks)
    }
}

/// A sender whose receiver agrees never fails. Once it has sent the end of the
/// entries, the control stream holds the handshake, what is due for each job in
/// their order, and the hashes of the sharded files; the data streams hold the
/// chunks of these files, in turn; and the receiver's last answer decides how the
/// transfer went.
pub proof fn law_all_is_sent(
    runs: Seq<SendRun>,
    evs: Seq<SendEvent>,
    w: Load,
    port: u16,
    ack: Seq<u8>,
    i: int,
) -> (blocks: Seq<Option<Seq<u8>>>)
    requires
        w.wf(),
        is_send_run(runs, evs, w, port, ack),
        0 <= i < runs.len(),
    ensures
        !(runs[i].a is Fail),
        runs[i].m.phase == SendPhase::Ack || runs[i].m.phase == SendPhase::Over ==> {
            let n = w.h.nstreams;
            &&& blocks.len() == w.jobs.len()
            &&& blocks_fit(w, blocks)
            &&& runs[i].ctrl == handshake_bytes(w.h) + items_bytes(
                job_items(w.jobs, w.contents, n, w.checksum, blocks),
            ) + end_bytes(named_hashes(w.jobs, w.contents, n, w.checksum))
            &&& runs[i].data == striped(all_chunks(w.jobs, w.contents, n), n)
        },
        runs[i].m.phase == SendPhase::Over ==> runs[i].a == SendAction::Finish(ack_outcome(ack)),
{
    let blocks = lemma_send_run(runs, evs, w, port, ack, i);
    assert(w.jobs.take(w.jobs.len() as int) =~= w.jobs);
    blocks
}

// ---------------------------------------------------------------------------
// Reports
// ---------------------------------------------------------------------------

/// What is reported when the sending of a transfer came to where it stands, in the
/// words of `label` where all went well.
pub open spec fn on_window(r: SendRun, label: Seq<char>) -> Seq<UpdateView> {
    let report = match r.a {
        SendAction::Start(u) => Some(u@),
        SendAction::Send { report, .. } => opt_update(report),
        SendAction::SendChunk { update, .. } => Some(update@),
        SendAction::Finish(outcome) => ending_report(r.m.session, outcome, label),
        SendAction::Fail(f) => fault_report(r.m.session, f),
        _ => None,
    };
    match report {
        Some(u) => seq![u],
        None => Seq::empty(),
    }
}

/// All that is reported of the sending of a transfer up to a turn.
pub open spec fn reports(runs: Seq<SendRun>, i: int, label: Seq<char>) -> Seq<UpdateView>
    decreases i,
{
    if i <= 0 {
        seq![opening_report(runs[0].m)]
    } else {
        reports(runs, i - 1, label) + on_window(runs[i], label)
    }
}

/// Whether neither the bytes that were sent nor the file under way ever go back.
pub open spec fn never_go_back(us: Seq<UpdateView>) -> bool {
    forall|a: int, b: int|
        0 <= a < b < us.len() ==> {
            &&& (#[trigger] us[a]).sent_bytes <= (#[trigger] us[b]).sent_bytes
            &&& us[a].file_index is Some && us[b].file_index is Some ==> us[a].file_index->0
                <= us[b].file_index->0
        }
}

/// How many of the first `k` jobs are files.
pub open spec fn files_before(jobs: Seq<JobView>, k: int) -> nat {
    file_list(jobs.take(k)).len()
}

/// Whether one of the reports says how much was sent of a file.
pub open spec fn is_told(us: Seq<UpdateView>, pos: nat, sent: nat) -> bool {
    exists|j: int|
        0 <= j < us.len() && (#[trigger] us[j]).file_index is Some && us[j].file_index->0 == pos
            && us[j].file_sent is Some && us[j].file_sent->0 == sent
}

/// Whether a job is a file of which something is sent, be it that it is empty.
pub open spec fn is_shown(w: Load, k: int) -> bool {
    !w.jobs[k].is_dir && (job_form(w.jobs[k], w.h.nstreams) == Form::Sharded
        ==> w.contents[k].len() > 0)
}

/// Whether a report that is not the first is one of a file in the list, by its
/// name, or of none.
pub open spec fn names_its_file(u: UpdateView, jobs: Seq<JobView>) -> bool {
    let l = file_list(jobs);
    &&& u.files is None
    &&& u.file_index matches Some(f) ==> f < l.len() && u.label == l[f as int].0
}

/// What holds of the reports while the sending of a transfer is under way.
spec fn reports_hold(r: SendRun, us: Seq<UpdateView>, w: Load) -> bool {
    let s = r.m.session;
    let k = s.idx as int;
    &&& s.total == w.h.total
    &&& k <= w.jobs.len()
    &&& s.pos == files_before(w.jobs, k)
    &&& us.len() >= 1
    &&& us[0] == list_report(w.h.total, "Waiting for approval..."@, file_list(w.jobs))
    &&& r.m.phase == SendPhase::Reply || r.m.phase is Streams ==> us.len() == 1
    &&& forall|j: int| 0 < j < us.len() ==> names_its_file(#[trigger] us[j], w.jobs)
    &&& forall|j: int|
        0 <= j < us.len() ==> {
            &&& (#[trigger] us[j]).sent_bytes <= s.sent
            &&& !us[j].done
            &&& us[j].file_index is Some ==> us[j].file_index->0 <= s.pos
        }
    &&& never_go_back(us)
    &&& r.m.phase == SendPhase::Shard ==> {
        &&& !w.jobs[k].is_dir
        &&& s.shard->0.rel == w.jobs[k].rel
        &&& s.shard->0.offset > 0 ==> is_told(us, s.pos as nat, s.shard->0.offset as nat)
    }
    &&& forall|x: int|
        0 <= x < k && #[trigger] is_shown(w, x) ==> is_told(
            us,
            files_before(w.jobs, x),
            w.contents[x].len(),
        )
}

proof fn lemma_files_before(jobs: Seq<JobView>, k: int)
    requires
        0 <= k <= jobs.len(),
    ensures
        files_before(jobs, k) <= k,
        files_before(jobs, k) <= file_list(jobs).len(),
        k < jobs.len() && !jobs[k].is_dir ==> {
            &&& files_before(jobs, k) < file_list(jobs).len()
            &&& file_list(jobs)[files_before(jobs, k) as int] == (jobs[k].rel, jobs[k].size)
        },
{
    lemma_few_files(jobs, k);
    lemma_file_list_starts(jobs, k);
    if k < jobs.len() {
        lemma_file_list_next(jobs, k);
        lemma_file_list_starts(jobs, k + 1);
    }
}

proof fn lemma_few_files(jobs: Seq<JobView>, k: int)
    requires
        0 <= k <= jobs.len(),
    ensures
        files_before(jobs, k) <= k,
    decreases k,
{
    if k == 0 {
        reveal(Seq::filter);
        assert(jobs.take(0) =~= Seq::empty());
    } else {
        lemma_few_files(jobs, k - 1);
        lemma_file_list_next(jobs, k - 1);
    }
}

/// The list of the first files starts the list of all.
proof fn lemma_file_list_starts(jobs: Seq<JobView>, k: int)
    requires
        0 <= k <= jobs.len(),
    ensures
        files_before(jobs, k) <= file_list(jobs).len(),
        forall|j: int|
            0 <= j < files_before(jobs, k) ==> #[trigger] file_list(jobs)[j] == file_list(
                jobs.take(k),
            )[j],
    decreases jobs.len() - k,
{
    if k == jobs.len() {
        assert(jobs.take(k) =~= jobs);
    } else {
        lemma_file_list_starts(jobs, k + 1);
        lemma_file_list_next(jobs, k);
    }
}

/// What a file is told of stays told.
proof fn lemma_still_told(us: Seq<UpdateView>, u: UpdateView, pos: nat, sent: nat)
    ensures
        is_told(us, pos, sent) ==> is_told(us.push(u), pos, sent),
        u.file_index is Some && u.file_index->0 == pos && u.file_sent is Some && u.file_sent->0
            == sent ==> is_told(us.push(u), pos, sent),
{
    let all = us.push(u);
    if is_told(us, pos, sent) {
        let j = choose|j: int|
            0 <= j < us.len() && (#[trigger] us[j]).file_index is Some && us[j].file_index->0 == pos
                && us[j].file_sent is Some && us[j].file_sent->0 == sent;
        assert(all[j] == us[j]);
    }
    if u.file_index is Some && u.file_index->0 == pos && u.file_sent is Some && u.file_sent->0
        == sent {
        assert(all[us.len() as int] == u);
    }
}

/// A report that goes on from where those before it are.
proof fn lemma_one_more(us: Seq<UpdateView>, u: UpdateView, w: Load, sent: u64, pos: usize)
    requires
        us.len() >= 1,
        names_its_file(u, w.jobs),
        forall|j: int| 0 < j < us.len() ==> names_its_file(#[trigger] us[j], w.jobs),
        forall|j: int|
            0 <= j < us.len() ==> {
                &&& (#[trigger] us[j]).sent_bytes <= sent
                &&& us[j].file_index is Some ==> us[j].file_index->0 <= pos
            },
        u.sent_bytes >= sent,
        u.file_index matches Some(f) ==> f == pos,
        never_go_back(us),
    ensures
        never_go_back(us.push(u)),
        forall|j: int|
            0 < j < us.push(u).len() ==> names_its_file(#[trigger] us.push(u)[j], w.jobs),
{
    let all = us.push(u);
    assert forall|a: int, b: int| 0 <= a < b < all.len() implies {
        &&& (#[trigger] all[a]).sent_bytes <= (#[trigger] all[b]).sent_bytes
        &&& all[a].file_index is Some && all[b].file_index is Some ==> all[a].file_index->0
            <= all[b].file_index->0
    } by {
        assert(all[a] == us[a]);
        if b < us.len() {
            assert(all[b] == us[b]);
        }
    }
    assert forall|j: int| 0 < j < all.len() implies names_its_file(#[trigger] all[j], w.jobs) by {
        if j < us.len() {
            assert(all[j] == us[j]);
        }
    }
}

#[verifier::rlimit(40)]
#[verifier::spinoff_prover]
proof fn lemma_reports_turn(
    r: SendRun,
    ev: SendEvent,
    r2: SendRun,
    us: Seq<UpdateView>,
    w: Load,
    port: u16,
    ack: Seq<u8>,
    blocks: Seq<Option<Seq<u8>>>,
    more: Seq<Option<Seq<u8>>>,
    label: Seq<char>,
)
    requires
        w.wf(),
        send_holds(r, w, port, ack, blocks),
        send_turn(r, ev, r2, w, port, ack),
        send_holds(r2, w, port, ack, more),
        reports_hold(r, us, w),
        r2.m.phase != SendPhase::Over,
    ensures
        reports_hold(r2, us + on_window(r2, label), w),
{
    let s = r.m.session;
    let t = r2.m.session;
    let k = s.idx as int;
    let all = us + on_window(r2, label);
    lemma_files_before(w.jobs, k);
    if k < w.jobs.len() {
        lemma_file_list_next(w.jobs, k);
        lemma_files_before(w.jobs, k + 1);
        lemma_next_job(w, k);
    }
    match r.m.phase {
        SendPhase::File => {
            let u = r2.a->Send_report->0@;
            assert(all =~= us.push(u));
            lemma_one_more(us, u, w, s.sent, s.pos);
            assert forall|x: int| 0 <= x < t.idx && #[trigger] is_shown(w, x) implies is_told(
                all,
                files_before(w.jobs, x),
                w.contents[x].len(),
            ) by {
                lemma_still_told(us, u, files_before(w.jobs, x), w.contents[x].len());
            }
            assert forall|j: int| 0 <= j < all.len() implies {
                &&& (#[trigger] all[j]).sent_bytes <= t.sent
                &&& !all[j].done
                &&& all[j].file_index is Some ==> all[j].file_index->0 <= t.pos
            } by {
                if j < us.len() {
                    assert(all[j] == us[j]);
                }
            }
        },
        SendPhase::Shard => {
            if r2.a is SendChunk {
                let u = r2.a->update@;
                assert(all =~= us.push(u));
                lemma_one_more(us, u, w, s.sent, s.pos);
                lemma_still_told(us, u, t.pos as nat, t.shard->0.offset as nat);
                assert forall|x: int| 0 <= x < t.idx && #[trigger] is_shown(w, x) implies is_told(
                    all,
                    files_before(w.jobs, x),
                    w.contents[x].len(),
                ) by {
                    lemma_still_told(us, u, files_before(w.jobs, x), w.contents[x].len());
                }
                assert forall|j: int| 0 <= j < all.len() implies {
                    &&& (#[trigger] all[j]).sent_bytes <= t.sent
                    &&& !all[j].done
                    &&& all[j].file_index is Some ==> all[j].file_index->0 <= t.pos
                } by {
                    if j < us.len() {
                        assert(all[j] == us[j]);
                    }
                }
            } else {
                assert(all =~= us);
                if r2.a is Next {
                    assert(s.shard->0.offset == w.contents[k].len()) by {
                        lemma_shard_is_sent(r, ev, w, blocks);
                    }
                }
            }
        },
        _ => {
            if r2.a is Start {
                let u = r2.a->Start_0@;
                assert(all =~= us.push(u));
                lemma_one_more(us, u, w, s.sent, s.pos);
            } else {
                assert(all =~= us);
            }
        },
    }
}

/// A sharded file is at its end where there is nothing to read and nothing left.
proof fn lemma_shard_is_sent(r: SendRun, ev: SendEvent, w: Load, blocks: Seq<Option<Seq<u8>>>)
    requires
        r.m.phase == SendPhase::Shard,
        shard_holds(r, w, blocks),
        ev matches SendEvent::Part(b) && b@.len() == 0 && read_from(
            b@,
            w.contents[r.m.session.idx as int],
            r.m.session.shard->0.offset + r.m.session.shard->0.pending.len(),
        ),
        r.m.session.shard->0.pending.len() == 0,
    ensures
        r.m.session.shard->0.offset == w.contents[r.m.session.idx as int].len(),
{
}

/// Once a transfer is over nothing happens any more.
proof fn lemma_under_way(
    runs: Seq<SendRun>,
    evs: Seq<SendEvent>,
    w: Load,
    port: u16,
    ack: Seq<u8>,
    i: int,
)
    requires
        is_send_run(runs, evs, w, port, ack),
        0 <= i < evs.len(),
    ensures
        runs[i].m.phase != SendPhase::Over,
{
    assert(send_turn(runs[i], evs[i], runs[i + 1], w, port, ack));
}

proof fn lemma_reports_run(
    runs: Seq<SendRun>,
    evs: Seq<SendEvent>,
    w: Load,
    port: u16,
    ack: Seq<u8>,
    label: Seq<char>,
    i: int,
)
    requires
        w.wf(),
        is_send_run(runs, evs, w, port, ack),
        0 <= i < runs.len(),
        runs[i].m.phase != SendPhase::Over,
    ensures
        reports_hold(runs[i], reports(runs, i, label), w),
    decreases i,
{
    if i == 0 {
        lemma_few_files(w.jobs, 0);
        assert(runs[0].m.jobs == w.jobs);
    } else {
        lemma_under_way(runs, evs, w, port, ack, i - 1);
        lemma_reports_run(runs, evs, w, port, ack, label, i - 1);
        let blocks = lemma_send_run(runs, evs, w, port, ack, i - 1);
        let more = lemma_send_run(runs, evs, w, port, ack, i);
        assert(send_turn(runs[i - 1], evs[i - 1], runs[i - 1 + 1], w, port, ack));
        lemma_reports_turn(
            runs[i - 1],
            evs[i - 1],
            runs[i],
            reports(runs, i - 1, label),
            w,
            port,
            ack,
            blocks,
            more,
            label,
        );
    }
}

/// The reports of a sending tell its course. The list of files comes first, and
/// once. Neither the bytes that were sent nor the file under way ever go back.
/// Every later report of a file gives its place in the list, and its name. Once the
/// end was sent, each file of which something was sent has been reported in full,
/// at the number of files before it. No report but the last closes the transfer,
/// and it does so by the receiver's last answer: where all went well there is no
/// error, and all bytes were sent.
pub proof fn law_reports_tell_the_course(
    runs: Seq<SendRun>,
    evs: Seq<SendEvent>,
    w: Load,
    port: u16,
    ack: Seq<u8>,
    label: Seq<char>,
    i: int,
)
    requires
        w.wf(),
        is_send_run(runs, evs, w, port, ack),
        0 <= i < runs.len(),
    ensures
        ({
            let us = reports(runs, i, label);
            let l = file_list(w.jobs);
            let over = runs[i].m.phase == SendPhase::Over;
            let total = files_size(w.jobs, w.contents) as u64;
            &&& us.len() >= 1
            &&& us[0] == list_report(w.h.total, "Waiting for approval..."@, l)
            &&& never_go_back(us)
            &&& forall|j: int| 0 < j < us.len() ==> names_its_file(#[trigger] us[j], w.jobs)
            &&& l.len() > 0 ==> forall|j: int|
                0 <= j < us.len() && (#[trigger] us[j]).file_index is Some ==> us[j].file_index->0
                    < l.len()
            &&& over || runs[i].m.phase == SendPhase::Ack ==> forall|k: int|
                0 <= k < w.jobs.len() && #[trigger] is_shown(w, k) ==> is_told(
                    us,
                    files_before(w.jobs, k),
                    w.contents[k].len(),
                )
            &&& forall|j: int|
                0 <= j < us.len() && (#[trigger] us[j]).done ==> over && j == us.len() - 1
            &&& over && ack_outcome(ack) == AckOutcome::Success ==> us.last() == done_report(
                total,
                w.h.total,
                label,
            )
            &&& over ==> (ack_outcome(ack) matches AckOutcome::Mismatches(x) ==> us.last()
                == error_report(total, w.h.total, mismatch_words(x as nat)))
            &&& over && ack_outcome(ack) == AckOutcome::NoAnswer ==> forall|j: int|
                0 <= j < us.len() ==> !(#[trigger] us[j]).done
        }),
{
    let us = reports(runs, i, label);
    let r = runs[i];
    if r.m.phase == SendPhase::Over {
        let before = reports(runs, i - 1, label);
        let b = runs[i - 1];
        lemma_under_way(runs, evs, w, port, ack, i - 1);
        lemma_reports_run(runs, evs, w, port, ack, label, i - 1);
        lemma_send_run(runs, evs, w, port, ack, i - 1);
        lemma_send_run(runs, evs, w, port, ack, i);
        assert(send_turn(runs[i - 1], evs[i - 1], runs[i - 1 + 1], w, port, ack));
        assert(b.m.phase == SendPhase::Ack);
        assert(w.jobs.take(w.jobs.len() as int) =~= w.jobs);
        match ending_report(r.m.session, ack_outcome(ack), label) {
            Some(u) => {
                assert(us =~= before.push(u));
                lemma_one_more(before, u, w, b.m.session.sent, b.m.session.pos);
                assert forall|k: int| 0 <= k < w.jobs.len() && #[trigger] is_shown(
                    w,
                    k,
                ) implies is_told(us, files_before(w.jobs, k), w.contents[k].len()) by {
                    lemma_still_told(before, u, files_before(w.jobs, k), w.contents[k].len());
                }
                assert forall|j: int| 0 <= j < us.len() && (#[trigger] us[j]).done implies j
                    == us.len() - 1 by {
                    if j < before.len() {
                        assert(us[j] == before[j]);
                    }
                }
            },
            None => {
                assert(us =~= before);
            },
        }
    } else {
        lemma_reports_run(runs, evs, w, port, ack, label, i);
        lemma_send_run(runs, evs, w, port, ack, i);
    }
}

// ---------------------------------------------------------------------------
// A sender that is not let in
// ---------------------------------------------------------------------------

/// One turn of a sending whose receiver does not let the sender in.
pub open spec fn denied_turn(r: SendRun, ev: SendEvent, r2: SendRun) -> bool {
    let from = r.m.got.len() as int;
    &&& r.m.phase == SendPhase::Reply
    &&& r.a matches SendAction::Read(n) && (ev matches SendEvent::Bytes(b) && b@ == verdict_bytes(
        false,
        0,
    ).subrange(from, from + n))
    &&& sending_acts(r.m, ev, r2.m, r2.a)
    &&& r2.ctrl == r.ctrl + on_control(r2.a)
    &&& r2.data == r.data + on_data(r2.a)
}

/// The sending of a transfer whose receiver does not let the sender in.
pub open spec fn is_denied_run(runs: Seq<SendRun>, evs: Seq<SendEvent>, w: Load) -> bool {
    &&& runs.len() == evs.len() + 1
    &&& send_begun(runs[0], w)
    &&& forall|i: int| 0 <= i < evs.len() ==> #[trigger] denied_turn(runs[i], evs[i], runs[i + 1])
}

/// A sender that is not let in sends no entry and no byte of a file: nothing but
/// the handshake goes over the control stream, no data stream is opened, and where
/// the transfer is over it was given up for that reason, which is what is reported
/// behind the list.
pub proof fn law_denied_sender_sends_nothing(
    runs: Seq<SendRun>,
    evs: Seq<SendEvent>,
    w: Load,
    label: Seq<char>,
    i: int,
)
    requires
        is_denied_run(runs, evs, w),
        0 <= i < runs.len(),
    ensures
        runs[i].ctrl == handshake_bytes(w.h),
        runs[i].data.len() == 0,
        runs[i].m.phase == SendPhase::Reply || runs[i].m.phase == SendPhase::Over,
        runs[i].m.phase == SendPhase::Reply ==> runs[i].a is Read && reports(runs, i, label)
            == seq![opening_report(runs[0].m)],
        runs[i].m.phase == SendPhase::Over ==> {
            &&& runs[i].a == SendAction::Fail(SendFault::Rejected(DENIED))
            &&& reports(runs, i, label) == seq![
                opening_report(runs[0].m),
                error_report(0, w.h.total, DECLINED@),
            ]
        },
{
    lemma_denied_run(runs, evs, w, label, i);
}

/// What holds of a sending whose receiver does not let the sender in.
spec fn denied_holds(r: SendRun, us: Seq<UpdateView>, w: Load, opening: UpdateView) -> bool {
    &&& r.ctrl == handshake_bytes(w.h)
    &&& r.data.len() == 0
    &&& r.m.session.total == w.h.total
    &&& match r.m.phase {
        SendPhase::Reply => {
            &&& us == seq![opening]
            &&& r.m.got.len() < REPLY_LEN
            &&& r.m.got == verdict_bytes(false, 0).take(r.m.got.len() as int)
            &&& r.a matches SendAction::Read(n) && n > 0 && r.m.got.len() + n <= REPLY_LEN
        },
        SendPhase::Over => {
            &&& us == seq![opening, error_report(0, w.h.total, DECLINED@)]
            &&& r.a == SendAction::Fail(SendFault::Rejected(DENIED))
        },
        _ => false,
    }
}

proof fn lemma_denied_run(
    runs: Seq<SendRun>,
    evs: Seq<SendEvent>,
    w: Load,
    label: Seq<char>,
    i: int,
)
    requires
        is_denied_run(runs, evs, w),
        0 <= i < runs.len(),
    ensures
        denied_holds(runs[i], reports(runs, i, label), w, opening_report(runs[0].m)),
    decreases i,
{
    let all = verdict_bytes(false, 0);
    law_reply_read_back(DENIED, 0);
    assert(all.len() == REPLY_LEN);
    if i == 0 {
        assert(runs[0].m.got =~= all.take(0));
    } else {
        lemma_denied_run(runs, evs, w, label, i - 1);
        assert(denied_turn(runs[i - 1], evs[i - 1], runs[i - 1 + 1]));
        let r = runs[i - 1];
        let r2 = runs[i];
        let got = r.m.got + evs[i - 1]->Bytes_0@;
        assert(got =~= all.take(got.len() as int));
        assert(r2.ctrl =~= r.ctrl);
        assert(r2.data =~= r.data);
        let before = reports(runs, i - 1, label);
        if got.len() == REPLY_LEN {
            assert(all.take(got.len() as int) =~= all);
            assert(reports(runs, i, label) =~= seq![
                opening_report(runs[0].m),
                error_report(0, w.h.total, DECLINED@),
            ]);
        } else {
            assert(reports(runs, i, label) =~= before);
        }
    }
}

} // verus!

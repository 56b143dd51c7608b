//! The course of a transfer on the sending side: what to do next, after each
//! thing that happened.

use vstd::prelude::*;

use crate::entry::entry_bytes;
use crate::jobs::{seen, Job, JobView};
use crate::messages::{
    ack_outcome,
    chunk_bytes,
    decode_ack,
    decode_reply,
    encode_handshake,
    encode_hello,
    end_bytes,
    handshake_bytes,
    hello_bytes,
    reply_step,
    AckOutcome,
    Handshake,
    ReplyStep,
    DENIED,
};
use crate::progress::{
    done_report,
    error_report,
    file_report,
    list_report,
    mismatch_text,
    mismatch_words,
    opt_update,
    report_done,
    report_error,
    report_list,
    report_status,
    status_report,
    TransferUpdate,
    UpdateView,
    DECLINED,
};
use crate::protocol::CHUNK_SIZE;
use crate::sender::{
    after_dir,
    after_inline,
    after_read,
    after_shard,
    after_shard_header,
    chunk_made,
    dir_entry,
    file_list,
    form_of,
    is_sent_inline,
    item_bytes,
    job_form,
    list_files,
    packs,
    read_fits,
    send_start,
    sent_inline,
    shard_entry,
    Form,
    SendSession,
    SendState,
    ShardStep,
};
use crate::transfer::{block_fits, is_job_sent};

verus! {

/// Where the sending of a transfer stands.
#[derive(Clone, Copy, Debug, PartialEq, Eq, Structural)]
pub enum SendPhase {
    /// The answer to the handshake is being read.
    Reply,
    /// So many data streams are open, and one more is being opened.
    Streams(u8),
    /// The next entry is to be sent.
    Entries,
    /// A file is being read whole.
    File,
    /// A file is being read in chunks.
    Shard,
    /// The data streams are being brought to their end.
    Flush,
    /// The last answer is being read.
    Ack,
    Over,
}

/// What happened.
#[derive(Debug)]
pub enum SendEvent {
    /// The bytes that were asked for were read; of the last answer, as many as
    /// came.
    Bytes(Vec<u8>),
    /// The receiver answered the opening of a data stream.
    Answer(u8),
    /// What was asked for was done.
    Done,
    /// A file was read whole.
    Content(Vec<u8>),
    /// A file was read on, no further than was asked; nothing means that it is at
    /// its end.
    Part(Vec<u8>),
}

/// Why a transfer is given up.
#[derive(Clone, Copy, Debug, PartialEq, Eq, Structural)]
pub enum SendFault {
    /// The receiver speaks another protocol or version.
    Mismatch,
    /// The receiver refuses, for this reason.
    Rejected(u8),
    /// The receiver refuses a data stream.
    StreamRefused,
    /// There are more bytes than can be counted.
    TooMuch,
}

/// What to do next. Files are named by the numbers of their jobs.
#[derive(Debug)]
pub enum SendAction {
    /// Read this many bytes off the control connection.
    Read(usize),
    /// Open a data stream to the port, send the opening, and read the answer.
    OpenStream { port: u16, hello: Vec<u8> },
    /// All is open: report it.
    Start(TransferUpdate),
    /// Send bytes on the control connection, and report, if there is a report.
    Send { bytes: Vec<u8>, report: Option<TransferUpdate> },
    /// Read a file whole.
    ReadFile(usize),
    /// Send bytes on the control connection, open the file and read on, at most as
    /// much as a chunk has.
    OpenShard { id: usize, bytes: Vec<u8> },
    /// Read at most so much of the file on.
    ReadOn(usize),
    /// Send a chunk on one of the data streams, report, and read on, at most as
    /// much as a chunk has.
    SendChunk { worker: usize, frame: Vec<u8>, update: TransferUpdate },
    /// Nothing but to go on.
    Next,
    /// Bring the data streams to their end.
    Flush,
    /// Send bytes on the control connection, and read the last answer.
    SendEnd(Vec<u8>),
    Finish(AckOutcome),
    Fail(SendFault),
}

/// The sending of a transfer.
pub struct Sending {
    pub handshake: Handshake,
    pub port: u16,
    pub phase: SendPhase,
    /// The bytes of the message that is being read.
    pub got: Vec<u8>,
    pub jobs: Vec<Job>,
    pub session: SendSession,
}

/// The sending of a transfer, as seen by contracts.
pub struct SendingView {
    pub handshake: Handshake,
    pub port: u16,
    pub phase: SendPhase,
    pub got: Seq<u8>,
    pub jobs: Seq<JobView>,
    pub session: SendState,
}

impl View for Sending {
    type V = SendingView;

    open spec fn view(&self) -> SendingView {
        SendingView {
            handshake: self.handshake,
            port: self.port,
            phase: self.phase,
            got: self.got@,
            jobs: seen(self.jobs@),
            session: self.session@,
        }
    }
}

impl SendingView {
    /// What holds at every step.
    pub open spec fn wf(self) -> bool {
        &&& self.session.wf()
        &&& self.session.njobs == self.jobs.len()
        &&& self.session.nstreams == self.handshake.nstreams
        &&& self.phase matches SendPhase::Streams(k) ==> k < self.handshake.nstreams
        &&& self.phase == SendPhase::Shard ==> self.session.shard is Some
        &&& self.phase != SendPhase::Shard && self.phase != SendPhase::Over ==> self.session.shard
            is None
        &&& self.phase == SendPhase::File ==> self.session.idx < self.session.njobs
    }

    /// Whether this is the sort of thing that can happen now.
    pub open spec fn awaits(self, ev: SendEvent) -> bool {
        match self.phase {
            SendPhase::Reply => ev is Bytes,
            SendPhase::Streams(_) => ev is Answer,
            SendPhase::Entries => ev is Done,
            SendPhase::File => ev is Content,
            SendPhase::Shard => ev matches SendEvent::Part(b) && b@.len()
                + self.session.shard->0.pending.len() <= CHUNK_SIZE,
            SendPhase::Flush => ev is Done,
            SendPhase::Ack => ev is Bytes,
            SendPhase::Over => false,
        }
    }
}

/// The transfer is given up.
pub open spec fn send_given_up(m: SendingView, m2: SendingView, a: SendAction, f: SendFault) -> bool {
    a == SendAction::Fail(f) && m2 == (SendingView { phase: SendPhase::Over, ..m })
}

/// The report that opens a transfer: its files, none of them begun.
pub open spec fn opening_report(m: SendingView) -> UpdateView {
    list_report(m.session.total, "Waiting for approval..."@, file_list(m.jobs))
}

/// The report that closes a transfer by the receiver's last answer, in the words
/// of `label` where all went well. Where there was no answer there is none: the
/// connection broke.
pub open spec fn ending_report(s: SendState, outcome: AckOutcome, label: Seq<char>) -> Option<
    UpdateView,
> {
    match outcome {
        AckOutcome::Success => Some(done_report(s.sent, s.total, label)),
        AckOutcome::Mismatches(n) => Some(error_report(s.sent, s.total, mismatch_words(n as nat))),
        AckOutcome::NoAnswer => None,
    }
}

/// The report of a transfer that is given up because the receiver does not let the
/// sender in. Other faults have no words of their own.
pub open spec fn fault_report(s: SendState, f: SendFault) -> Option<UpdateView> {
    if f == SendFault::Rejected(DENIED) {
        Some(error_report(0, s.total, DECLINED@))
    } else {
        None
    }
}

/// The next data stream is opened, or, where all are, the entries are begun.
pub open spec fn opens_next(
    m: SendingView,
    open: u8,
    m2: SendingView,
    a: SendAction,
) -> bool {
    if open < m.handshake.nstreams {
        (a matches SendAction::OpenStream { port, hello } && port == m.port && hello@
            == hello_bytes(m.handshake.token)) && m2 == (SendingView {
            phase: SendPhase::Streams(open),
            ..m
        })
    } else {
        (a matches SendAction::Start(u) && u@ == status_report(
            0,
            m.session.total,
            "Starting..."@,
        )) && m2 == (SendingView { phase: SendPhase::Entries, ..m })
    }
}

/// While the answer to the handshake is read.
pub open spec fn reply_acts(
    m: SendingView,
    buf: Seq<u8>,
    m2: SendingView,
    a: SendAction,
) -> bool {
    match reply_step(buf) {
        ReplyStep::Need(n) => a == SendAction::Read((n - buf.len()) as usize) && m2 == (
        SendingView { got: buf, ..m }),
        ReplyStep::Mismatch => send_given_up(m, m2, a, SendFault::Mismatch),
        ReplyStep::Rejected(s) => send_given_up(m, m2, a, SendFault::Rejected(s)),
        ReplyStep::Accepted(port) => opens_next(
            SendingView { port, got: Seq::empty(), ..m },
            0,
            m2,
            a,
        ),
    }
}

/// When the next entry is to be sent.
pub open spec fn entries_acts(m: SendingView, m2: SendingView, a: SendAction) -> bool {
    let s = m.session;
    if s.idx == s.njobs {
        a is Flush && m2 == (SendingView { phase: SendPhase::Flush, ..m })
    } else {
        let j = m.jobs[s.idx as int];
        match job_form(j, s.nstreams) {
            Form::Dir => (a matches SendAction::Send { bytes, report } && bytes@ == entry_bytes(
                dir_entry(j),
            ) && report is None) && m2 == (SendingView { session: after_dir(s), ..m }),
            Form::Inline => a == SendAction::ReadFile(j.id) && m2 == (SendingView {
                phase: SendPhase::File,
                ..m
            }),
            Form::Sharded => (a matches SendAction::OpenShard { id, bytes } && id == j.id && bytes@
                == entry_bytes(shard_entry(j))) && m2 == (SendingView {
                phase: SendPhase::Shard,
                session: after_shard_header(s, j.rel),
                ..m
            }),
        }
    }
}

/// When a file was read whole.
pub open spec fn content_acts(
    m: SendingView,
    data: Seq<u8>,
    m2: SendingView,
    a: SendAction,
) -> bool {
    let s = m.session;
    let j = m.jobs[s.idx as int];
    if s.sent + data.len() > u64::MAX {
        send_given_up(m, m2, a, SendFault::TooMuch)
    } else {
        let s2 = after_inline(s, data.len());
        (a matches SendAction::Send { bytes, report } && is_sent_inline(
            bytes@,
            j,
            data,
            s.compress,
            s.checksum,
        ) && (report matches Some(u) && u@ == file_report(
            s2.sent,
            s.total,
            j.rel,
            s.pos,
            data.len() as u64,
        ))) && m2 == (SendingView { phase: SendPhase::Entries, session: s2, ..m })
    }
}

/// When a file was read on.
pub open spec fn part_acts(m: SendingView, data: Seq<u8>, m2: SendingView, a: SendAction) -> bool {
    let s = m.session;
    let f = s.shard->0;
    if !read_fits(s, data) {
        send_given_up(m, m2, a, SendFault::TooMuch)
    } else if data.len() == 0 && f.pending.len() == 0 {
        a is Next && m2 == (SendingView {
            phase: SendPhase::Entries,
            session: after_shard(s),
            ..m
        })
    } else {
        let s2 = after_read(s, data);
        m2 == (SendingView { session: s2, ..m }) && match chunk_made(s, data) {
            Some(chunk) => a matches SendAction::SendChunk { worker, frame, update } && worker
                == s.worker && frame@ == chunk_bytes(s.idx as u64, f.offset, chunk) && update@
                == file_report(s2.sent, s.total, f.rel, s.pos, s2.shard->0.offset),
            None => a == SendAction::ReadOn((CHUNK_SIZE - f.pending.len() - data.len()) as usize),
        }
    }
}

/// What is done after what happened.
pub open spec fn sending_acts(
    m: SendingView,
    ev: SendEvent,
    m2: SendingView,
    a: SendAction,
) -> bool {
    match m.phase {
        SendPhase::Reply => reply_acts(m, m.got + ev->Bytes_0@, m2, a),
        SendPhase::Streams(k) => if ev->Answer_0 != 0 {
            send_given_up(m, m2, a, SendFault::StreamRefused)
        } else {
            opens_next(m, (k + 1) as u8, m2, a)
        },
        SendPhase::Entries => entries_acts(m, m2, a),
        SendPhase::File => content_acts(m, ev->Content_0@, m2, a),
        SendPhase::Shard => part_acts(m, ev->Part_0@, m2, a),
        SendPhase::Flush => (a matches SendAction::SendEnd(bytes) && bytes@ == end_bytes(
            m.session.hashes,
        )) && m2 == (SendingView { phase: SendPhase::Ack, ..m }),
        SendPhase::Ack => a == SendAction::Finish(ack_outcome(ev->Bytes_0@)) && m2 == (
        SendingView { phase: SendPhase::Over, ..m }),
        SendPhase::Over => true,
    }
}

impl Sending {
    /// A transfer whose handshake is to be sent: the bytes of the handshake. The
    /// greeting of the answer is to be read next.
    pub fn start(jobs: Vec<Job>, handshake: Handshake, compress: bool, checksum: bool) -> (r: (
        Sending,
        Vec<u8>,
    ))
        ensures
            r.0@.wf(),
            r.0@.handshake == handshake,
            r.0@.phase == SendPhase::Reply,
            r.0@.got == Seq::<u8>::empty(),
            r.0@.jobs == seen(jobs@),
            r.0@.session == send_start(
                handshake.nstreams,
                compress,
                checksum,
                jobs@.len() as usize,
                handshake.total,
            ),
            r.1@ == handshake_bytes(handshake),
    {
        let n: usize = jobs.len();
        let session = SendSession::start(
            handshake.nstreams,
            compress,
            checksum,
            n,
            handshake.total,
        );
        let m = Sending {
            handshake,
            port: 0,
            phase: SendPhase::Reply,
            got: Vec::new(),
            jobs,
            session,
        };
        assert(m@.got =~= Seq::empty());
        (m, encode_handshake(handshake))
    }

    /// The report that opens the transfer.
    pub fn opening(&self) -> (r: TransferUpdate)
        ensures
            r@ == opening_report(self@),
    {
        report_list(self.session.total, "Waiting for approval...", list_files(&self.jobs))
    }

    /// The report that closes the transfer by the receiver's last answer, in the
    /// words of `label` where all went well.
    pub fn ending(&self, outcome: AckOutcome, label: &str) -> (r: Option<TransferUpdate>)
        ensures
            opt_update(r) == ending_report(self@.session, outcome, label@),
    {
        match outcome {
            AckOutcome::Success => Some(report_done(self.session.sent, self.session.total, label)),
            AckOutcome::Mismatches(n) => {
                let words = mismatch_text(n);
                Some(report_error(self.session.sent, self.session.total, words.as_str()))
            },
            AckOutcome::NoAnswer => None,
        }
    }

    /// The report of a transfer that is given up, where the fault has words of its
    /// own.
    pub fn fault(&self, f: SendFault) -> (r: Option<TransferUpdate>)
        ensures
            opt_update(r) == fault_report(self@.session, f),
    {
        match f {
            SendFault::Rejected(status) => {
                if status == DENIED {
                    Some(report_error(0, self.session.total, DECLINED))
                } else {
                    None
                }
            },
            _ => None,
        }
    }

    fn fail(&mut self, f: SendFault) -> (a: SendAction)
        requires
            old(self)@.wf(),
        ensures
            send_given_up(old(self)@, final(self)@, a, f),
            final(self)@.wf(),
    {
        self.phase = SendPhase::Over;
        SendAction::Fail(f)
    }

    fn open_next(&mut self, open: u8) -> (a: SendAction)
        requires
            old(self)@.wf(),
            old(self)@.session.shard is None,
        ensures
            opens_next(old(self)@, open, final(self)@, a),
            final(self)@.wf(),
    {
        if open < self.handshake.nstreams {
            self.phase = SendPhase::Streams(open);
            SendAction::OpenStream { port: self.port, hello: encode_hello(self.handshake.token) }
        } else {
            self.phase = SendPhase::Entries;
            SendAction::Start(report_status(0, self.session.total, "Starting..."))
        }
    }

    fn on_reply(&mut self, b: &Vec<u8>) -> (a: SendAction)
        requires
            old(self)@.wf(),
            old(self)@.phase == SendPhase::Reply,
        ensures
            reply_acts(old(self)@, old(self)@.got + b@, final(self)@, a),
            final(self)@.wf(),
    {
        let mut buf: Vec<u8> = Vec::new();
        buf.extend_from_slice(self.got.as_slice());
        buf.extend_from_slice(b.as_slice());
        assert(buf@ =~= self.got@ + b@);
        match decode_reply(buf.as_slice()) {
            ReplyStep::Need(n) => {
                let more: usize = n - buf.len();
                self.got = buf;
                SendAction::Read(more)
            },
            ReplyStep::Mismatch => self.fail(SendFault::Mismatch),
            ReplyStep::Rejected(s) => self.fail(SendFault::Rejected(s)),
            ReplyStep::Accepted(port) => {
                self.port = port;
                self.got = Vec::new();
                assert(self@.got =~= Seq::empty());
                self.open_next(0)
            },
        }
    }

    fn next_entry(&mut self) -> (a: SendAction)
        requires
            old(self)@.wf(),
            old(self)@.phase == SendPhase::Entries,
        ensures
            entries_acts(old(self)@, final(self)@, a),
            final(self)@.wf(),
    {
        if self.session.idx == self.session.njobs {
            self.phase = SendPhase::Flush;
            return SendAction::Flush;
        }
        let i: usize = self.session.idx;
        assert(self@.jobs[i as int] == self.jobs@[i as int]@);
        match form_of(&self.jobs[i], self.session.nstreams) {
            Form::Dir => {
                let bytes = self.session.send_dir(&self.jobs[i]);
                SendAction::Send { bytes, report: None }
            },
            Form::Inline => {
                self.phase = SendPhase::File;
                SendAction::ReadFile(self.jobs[i].id)
            },
            Form::Sharded => {
                let bytes = self.session.begin_shard(&self.jobs[i]);
                self.phase = SendPhase::Shard;
                SendAction::OpenShard { id: self.jobs[i].id, bytes }
            },
        }
    }

    fn on_content(&mut self, data: &Vec<u8>) -> (a: SendAction)
        requires
            old(self)@.wf(),
            old(self)@.phase == SendPhase::File,
        ensures
            content_acts(old(self)@, data@, final(self)@, a),
            final(self)@.wf(),
    {
        let i: usize = self.session.idx;
        assert(self@.jobs[i as int] == self.jobs@[i as int]@);
        if !self.session.can_count(data.len()) {
            return self.fail(SendFault::TooMuch);
        }
        let (bytes, update) = self.session.send_inline(&self.jobs[i], data.as_slice());
        self.phase = SendPhase::Entries;
        SendAction::Send { bytes, report: Some(update) }
    }

    fn on_part(&mut self, data: &Vec<u8>) -> (a: SendAction)
        requires
            old(self)@.wf(),
            old(self)@.phase == SendPhase::Shard,
            data@.len() + old(self)@.session.shard->0.pending.len() <= CHUNK_SIZE,
        ensures
            part_acts(old(self)@, data@, final(self)@, a),
            final(self)@.wf(),
    {
        if !self.session.can_count(data.len()) {
            return self.fail(SendFault::TooMuch);
        }
        match self.session.on_read(data.as_slice()) {
            ShardStep::Finished => {
                self.phase = SendPhase::Entries;
                SendAction::Next
            },
            ShardStep::More(n) => SendAction::ReadOn(n),
            ShardStep::Chunk { worker, frame, update } => SendAction::SendChunk {
                worker,
                frame,
                update,
            },
        }
    }

    /// Takes what happened, and says what to do next.
    pub fn step(&mut self, ev: SendEvent) -> (a: SendAction)
        requires
            old(self)@.wf(),
            old(self)@.awaits(ev),
        ensures
            sending_acts(old(self)@, ev, final(self)@, a),
            final(self)@.wf(),
    {
        match (self.phase, ev) {
            (SendPhase::Reply, SendEvent::Bytes(b)) => self.on_reply(&b),
            (SendPhase::Streams(k), SendEvent::Answer(x)) => {
                if x != 0 {
                    self.fail(SendFault::StreamRefused)
                } else {
                    self.open_next(k + 1)
                }
            },
            (SendPhase::Entries, SendEvent::Done) => self.next_entry(),
            (SendPhase::File, SendEvent::Content(d)) => self.on_content(&d),
            (SendPhase::Shard, SendEvent::Part(d)) => self.on_part(&d),
            (SendPhase::Flush, SendEvent::Done) => {
                self.phase = SendPhase::Ack;
                SendAction::SendEnd(self.session.end())
            },
            (SendPhase::Ack, SendEvent::Bytes(b)) => {
                self.phase = SendPhase::Over;
                SendAction::Finish(decode_ack(b.as_slice()))
            },
            _ => self.fail(SendFault::TooMuch),
        }
    }
}

/// The receiver's answer decides: a sender goes on exactly where the receiver
/// agreed, and knows the reason where it did not.
pub proof fn law_sender_heeds_the_answer(
    m: SendingView,
    status: u8,
    port: u16,
    m2: SendingView,
    a: SendAction,
)
    requires
        m.phase == SendPhase::Reply,
        reply_acts(m, crate::messages::reply_bytes(status, port), m2, a),
    ensures
        status == 0 ==> (m2.phase != SendPhase::Over && m2.port == port && (a is OpenStream
            || a is Start)),
        status != 0 ==> a == SendAction::Fail(SendFault::Rejected(status)) && m2.phase
            == SendPhase::Over,
{
    crate::messages::law_reply_read_back(status, port);
}

/// What a sender puts on the control stream for a job is the whole of what is due
/// for it: its header, and behind it the file, where that is sent whole.
pub proof fn law_job_is_sent_whole(
    m: SendingView,
    content: Seq<u8>,
    m1: SendingView,
    a1: SendAction,
    m2: SendingView,
    a2: SendAction,
)
    requires
        m.phase == SendPhase::Entries,
        m.session.idx < m.session.njobs,
        entries_acts(m, m1, a1),
        m1.phase == SendPhase::File ==> content_acts(m1, content, m2, a2) && a2 is Send,
    ensures
        ({
            let s = m.session;
            let j = m.jobs[s.idx as int];
            let bytes = match a1 {
                SendAction::Send { bytes, .. } => bytes@,
                SendAction::OpenShard { bytes, .. } => bytes@,
                _ => a2->Send_bytes@,
            };
            is_job_sent(bytes, j, content, s.nstreams, s.compress, s.checksum)
        }),
{
    let s = m.session;
    let j = m.jobs[s.idx as int];
    let none: Seq<u8> = Seq::empty();
    assert(entry_bytes(dir_entry(j)) + none =~= entry_bytes(dir_entry(j)));
    assert(entry_bytes(shard_entry(j)) + none =~= entry_bytes(shard_entry(j)));
    match job_form(j, s.nstreams) {
        Form::Inline => {
            let block = choose|block: Option<Seq<u8>>| #[trigger]
                packs(s.compress, j.rel, content, block) && a2->Send_bytes@ == item_bytes(
                    sent_inline(j, content, s.checksum, block),
                );
            assert(block_fits(j, content, s.nstreams, s.compress, block));
        },
        _ => {
            assert(block_fits(j, content, s.nstreams, s.compress, None));
        },
    }
}

/// The first report waits for the receiver's user, with the number of bytes and the
/// list of files.
pub proof fn law_waiting_is_reported(m: SendingView)
    ensures
        ({
            let u = opening_report(m);
            &&& u.label == "Waiting for approval..."@
            &&& u.sent_bytes == 0 && u.total_bytes == m.session.total
            &&& u.files == Some(file_list(m.jobs))
            &&& !u.done && u.error is None
        }),
{
}

/// The end of a sending is reported as the receiver told it: as done, or with its count
/// of mismatches. Where no answer came nothing is reported, and a refusal by the
/// receiver's user has words of its own.
pub proof fn law_end_is_reported_as_told(s: SendState, n: u64, label: Seq<char>, f: SendFault)
    ensures
        ({
            let r = ending_report(s, AckOutcome::Success, label);
            &&& r is Some && r->0.done && r->0.error is None && r->0.label == label
            &&& r->0.sent_bytes == s.sent && r->0.total_bytes == s.total
        }),
        ({
            let r = ending_report(s, AckOutcome::Mismatches(n), label);
            &&& r is Some && r->0.done
            &&& r->0.error == Some(crate::text::decimal(n as nat) + " checksum mismatches"@)
            &&& r->0.sent_bytes == s.sent && r->0.total_bytes == s.total
        }),
        ending_report(s, AckOutcome::NoAnswer, label) is None,
        fault_report(s, f) is Some <==> f == SendFault::Rejected(2),
        fault_report(s, f) matches Some(u) ==> u.done && u.error == Some("Declined by receiver"@)
            && u.sent_bytes == 0 && u.total_bytes == s.total,
{
}

/// The data streams are opened one after the other, at the receiver's port and with the
/// token, until as many are open as the handshake said; then the entries begin. A stream
/// that the receiver refuses ends the sending.
pub proof fn law_streams_are_opened_in_turn(
    m: SendingView,
    k: u8,
    ev: SendEvent,
    m2: SendingView,
    a: SendAction,
)
    requires
        m.phase == SendPhase::Streams(k),
        k < m.handshake.nstreams,
        ev is Answer,
        sending_acts(m, ev, m2, a),
    ensures
        ev->Answer_0 != 0 ==> a == SendAction::Fail(SendFault::StreamRefused) && m2.phase
            == SendPhase::Over,
        ev->Answer_0 == 0 && k + 1 < m.handshake.nstreams ==> {
            &&& a is OpenStream && a->OpenStream_port == m.port
            &&& a->hello@ == hello_bytes(m.handshake.token)
            &&& m2.phase == SendPhase::Streams((k + 1) as u8)
        },
        ev->Answer_0 == 0 && k + 1 == m.handshake.nstreams ==> {
            &&& a is Start && a->Start_0@.label == "Starting..."@ && a->Start_0@.sent_bytes == 0
            &&& a->Start_0@.total_bytes == m.session.total && !a->Start_0@.done
            &&& m2.phase == SendPhase::Entries
        },
        m2.session == m.session && m2.jobs == m.jobs && m2.port == m.port,
{
}

/// The entries are sent in their order: a folder by its header, a small file after it
/// was read whole, a large one in chunks after its header. Behind the last, the data
/// streams are brought to their end.
pub proof fn law_entries_are_sent_in_turn(
    m: SendingView,
    ev: SendEvent,
    m2: SendingView,
    a: SendAction,
)
    requires
        m.wf(),
        m.phase == SendPhase::Entries,
        ev is Done,
        sending_acts(m, ev, m2, a),
    ensures
        m.session.idx == m.jobs.len() ==> a is Flush && m2.phase == SendPhase::Flush && m2.session
            == m.session,
        m.session.idx < m.jobs.len() ==> {
            let j = m.jobs[m.session.idx as int];
            let spread = j.size >= 0x400_0000 && m.handshake.nstreams > 0;
            &&& j.is_dir ==> {
                &&& a is Send && a->report is None && a->Send_bytes@ == entry_bytes(dir_entry(j))
                &&& m2.phase == SendPhase::Entries && m2.session.idx == m.session.idx + 1
                &&& m2.session.sent == m.session.sent
            }
            &&& !j.is_dir && !spread ==> {
                &&& a == SendAction::ReadFile(j.id)
                &&& m2.phase == SendPhase::File && m2.session == m.session
            }
            &&& !j.is_dir && spread ==> {
                &&& a is OpenShard && a->id == j.id
                &&& a->OpenShard_bytes@ == entry_bytes(shard_entry(j))
                &&& m2.phase == SendPhase::Shard && m2.session.shard is Some
                &&& m2.session.shard->0.rel == j.rel && m2.session.shard->0.offset == 0
                &&& m2.session.idx == m.session.idx && m2.session.sent == m.session.sent
            }
        },
        m2.jobs == m.jobs,
{
}

/// A file that was read whole is sent and counted, and the report tells its path, its
/// place among the files, and its bytes.
pub proof fn law_file_is_counted_and_reported(
    m: SendingView,
    ev: SendEvent,
    m2: SendingView,
    a: SendAction,
)
    requires
        m.wf(),
        m.phase == SendPhase::File,
        ev is Content,
        m.session.sent + ev->Content_0@.len() <= u64::MAX,
        m.session.pos < usize::MAX,
        sending_acts(m, ev, m2, a),
    ensures
        ({
            let n = ev->Content_0@.len();
            let j = m.jobs[m.session.idx as int];
            &&& a is Send && a->report is Some
            &&& a->report->0@.sent_bytes == m.session.sent + n
            &&& a->report->0@.total_bytes == m.session.total
            &&& a->report->0@.label == j.rel && !a->report->0@.done
            &&& a->report->0@.file_index == Some(m.session.pos)
            &&& a->report->0@.file_sent == Some(n as u64)
            &&& m2.phase == SendPhase::Entries && m2.session.idx == m.session.idx + 1
            &&& m2.session.pos == m.session.pos + 1 && m2.session.sent == m.session.sent + n
            &&& m2.session.hashes == m.session.hashes
        }),
{
}

/// A chunk goes to the stream whose turn it is, under the number of the file and the
/// place where the file was, and the report tells how far the file and the whole are.
pub proof fn law_chunk_is_counted_and_reported(
    m: SendingView,
    ev: SendEvent,
    m2: SendingView,
    a: SendAction,
)
    requires
        m.wf(),
        m.phase == SendPhase::Shard,
        m.awaits(ev),
        sending_acts(m, ev, m2, a),
        a is SendChunk,
    ensures
        ({
            let f = m.session.shard->0;
            let all = f.pending + ev->Part_0@;
            let u = a->update@;
            &&& a->worker == m.session.worker
            &&& a->frame@ == chunk_bytes(m.session.idx as u64, f.offset, all)
            &&& u.sent_bytes == m.session.sent + all.len() && u.total_bytes == m.session.total
            &&& u.label == f.rel && u.file_index == Some(m.session.pos) && !u.done
            &&& u.file_sent == Some((f.offset + all.len()) as u64)
            &&& m2.phase == SendPhase::Shard
        }),
{
}

/// Behind the entries the hashes are named, and with the receiver's last word the
/// sending is over.
pub proof fn law_sending_ends_with_the_hashes(
    m: SendingView,
    ev: SendEvent,
    m2: SendingView,
    a: SendAction,
)
    requires
        m.awaits(ev),
        sending_acts(m, ev, m2, a),
    ensures
        m.phase == SendPhase::Flush ==> a is SendEnd && a->SendEnd_0@ == end_bytes(
            m.session.hashes,
        ) && m2.phase == SendPhase::Ack,
        m.phase == SendPhase::Ack ==> a == SendAction::Finish(ack_outcome(ev->Bytes_0@)) && m2.phase
            == SendPhase::Over,
        a is Finish ==> m.phase == SendPhase::Ack,
        a is SendEnd ==> m.phase == SendPhase::Flush,
{
}

/// A sending fails for a cause alone: the receiver's answers, or more bytes than can be
/// counted.
pub proof fn law_sending_fails_for_cause(
    m: SendingView,
    ev: SendEvent,
    m2: SendingView,
    a: SendAction,
)
    requires
        m.wf(),
        m.awaits(ev),
        sending_acts(m, ev, m2, a),
    ensures
        m.phase == SendPhase::File ==> (a is Fail <==> m.session.sent + ev->Content_0@.len()
            > u64::MAX),
        m.phase == SendPhase::Shard ==> {
            let all = m.session.shard->0.pending.len() + ev->Part_0@.len();
            a is Fail <==> m.session.sent + all > u64::MAX || m.session.shard->0.offset + all
                > u64::MAX
        },
        m.phase == SendPhase::Entries || m.phase == SendPhase::Flush || m.phase == SendPhase::Ack
            ==> a !is Fail,
        a is Fail ==> m2.phase == SendPhase::Over && m2.session == m.session,
{
}

/// A file that is read in chunks ends with a reading that gives nothing while nothing
/// waits; until then the next reading asks for what a chunk still lacks.
pub proof fn law_file_is_read_to_its_end(
    m: SendingView,
    ev: SendEvent,
    m2: SendingView,
    a: SendAction,
)
    requires
        m.wf(),
        m.phase == SendPhase::Shard,
        m.awaits(ev),
        sending_acts(m, ev, m2, a),
        a !is Fail,
    ensures
        ({
            let waiting = m.session.shard->0.pending.len();
            let n = ev->Part_0@.len();
            &&& a is Next <==> n == 0 && waiting == 0
            &&& a is Next ==> m2.phase == SendPhase::Entries && m2.session.shard is None
                && m2.session.hashes.len() == m.session.hashes.len() + 1
            &&& a is SendChunk <==> (n == 0 && waiting > 0) || (n > 0 && waiting + n == 0x40_0000)
            &&& a is ReadOn <==> n > 0 && waiting + n < 0x40_0000
            &&& a is ReadOn ==> a->ReadOn_0 == 0x40_0000 - waiting - n
        }),
{
    assert(CHUNK_SIZE == 0x40_0000);
}

} // verus!

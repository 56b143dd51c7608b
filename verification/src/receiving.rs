//! The course of a transfer on the receiving side: what to do next, after each
//! thing that happened.

use vstd::prelude::*;

use crate::entry::{
    compressed,
    decode_entry,
    entry_bytes,
    entry_step,
    law_entry_read_back,
    law_headers_are_refused_for_cause,
    sendable,
    Entry,
    EntryKind,
    EntryStep,
    EntryStepView,
    EntryView,
};
use crate::messages::{
    ack_bytes,
    answer_hello,
    chunk_step,
    decode_chunk_head,
    decode_handshake,
    decode_hash,
    encode_reject,
    encode_verdict,
    handshake_bytes,
    handshake_step,
    hello_answer,
    law_handshake_read_back,
    law_reply_read_back,
    law_stream_opens_with_the_token,
    law_verdict_read_back,
    reply_bytes,
    reply_step,
    six_bytes,
    verdict_bytes,
    ChunkStep,
    Handshake,
    HandshakeStep,
    ReplyStep,
    CHUNK_HEAD_LEN,
    DENIED,
    GREETING_LEN,
    HELLO_LEN,
};
use crate::outside::{content_hash, lz4_content, unpackable};
use crate::path::{destination, wire_to_path};
use crate::progress::{status_report, TransferUpdate};
use crate::receiver::{
    after_chunk_written,
    after_entry,
    after_file,
    after_shard_placed,
    after_verify,
    all_arrived,
    arrived,
    places,
    recv_start,
    shard_place,
    time_to_set,
    to_verify,
    wait_step,
    FileAction,
    FileError,
    HashList,
    HeaderAction,
    RecvSession,
    RecvState,
    ShardPlace,
    WaitStep,
};
use crate::text::texts;
use crate::transfer::taken;
use crate::wire::{field, read_u64};

verus! {

// ---------------------------------------------------------------------------
// The control connection
// ---------------------------------------------------------------------------

/// Where the receiving of a transfer stands.
#[derive(Debug)]
pub enum RecvPhase {
    /// The handshake is being read.
    Handshake,
    /// It is being asked whether the sender is let in.
    Verdict,
    /// The header of an entry is being read, or is to be read next.
    Header,
    /// The bytes behind the header of a file are being read.
    Payload(Entry),
    /// It is being seen whether a sharded file exists already.
    Look(Entry),
    /// Room is being made for a sharded file.
    Make(Entry),
    /// The number of hashes is being read.
    HashCount,
    /// A hash is being read.
    Hashes,
    /// The data streams are being waited for.
    Drain,
    /// What was begun is being brought to its end.
    Join,
    /// The hash of the sharded file at this position is being taken.
    Verify(usize),
    Over,
}

/// Where the receiving of a transfer stands, with entries as seen by contracts.
pub enum PhaseView {
    Handshake,
    Verdict,
    Header,
    Payload(EntryView),
    Look(EntryView),
    Make(EntryView),
    HashCount,
    Hashes,
    Drain,
    Join,
    Verify(usize),
    Over,
}

impl View for RecvPhase {
    type V = PhaseView;

    open spec fn view(&self) -> PhaseView {
        match *self {
            RecvPhase::Handshake => PhaseView::Handshake,
            RecvPhase::Verdict => PhaseView::Verdict,
            RecvPhase::Header => PhaseView::Header,
            RecvPhase::Payload(e) => PhaseView::Payload(e@),
            RecvPhase::Look(e) => PhaseView::Look(e@),
            RecvPhase::Make(e) => PhaseView::Make(e@),
            RecvPhase::HashCount => PhaseView::HashCount,
            RecvPhase::Hashes => PhaseView::Hashes,
            RecvPhase::Drain => PhaseView::Drain,
            RecvPhase::Join => PhaseView::Join,
            RecvPhase::Verify(i) => PhaseView::Verify(i),
            RecvPhase::Over => PhaseView::Over,
        }
    }
}

/// What happened.
#[derive(Debug)]
pub enum RecvEvent {
    /// The bytes that were asked for were read.
    Bytes(Vec<u8>),
    /// The sender is let in, or not; where it is, data streams are taken at the
    /// port.
    Verdict { allowed: bool, port: u16 },
    /// What was asked for was done.
    Done,
    /// It was seen whether there is something already.
    There(bool),
    /// A little time went by; the time may be up.
    Time(bool),
    /// The hash of a file was taken, where it could be read.
    Digest(Option<u64>),
}

/// Why a transfer is given up.
#[derive(Clone, Copy, Debug, PartialEq, Eq, Structural)]
pub enum RecvFault {
    UnknownEntry(u8),
    PathTooLong,
    BadUtf8,
    TooBig(u64),
    File(FileError),
    /// There are more entries or mismatches than can be counted.
    TooMany,
}

/// What to do next.
#[derive(Debug)]
pub enum RecvAction {
    /// Read this many bytes off the control connection.
    Read(usize),
    /// Send this answer to a sender of another protocol or version, or to one that
    /// is not let in, and give up.
    Refuse(Vec<u8>),
    /// Ask whether the sender is let in.
    Ask(Handshake),
    /// Send this answer to a sender that is let in, and take data streams.
    Begin(Vec<u8>),
    MakeDir { dest: Vec<String>, mtime: Option<u64> },
    Write(FileAction),
    /// See whether there is something already.
    Look(Vec<String>),
    /// Create a file, or empty it, and give it its length.
    Make { dest: Vec<String>, size: u64 },
    /// Wait a little for the data streams.
    Wait,
    /// Bring what was begun to its end.
    Join,
    /// Take the hash of the sharded file at this position.
    Hash(usize),
    /// Send the last answer.
    Finish(Vec<u8>),
    Fail(RecvFault),
}

/// The receiving of a transfer.
pub struct Receiving {
    pub overwrite: bool,
    pub phase: RecvPhase,
    /// The bytes of the message that is being read.
    pub got: Vec<u8>,
    pub session: RecvSession,
    pub list: HashList,
}

/// The receiving of a transfer, as seen by contracts.
pub struct ReceivingView {
    pub overwrite: bool,
    pub phase: PhaseView,
    pub got: Seq<u8>,
    pub session: RecvState,
    pub left: u64,
    pub hashes: Map<u64, u64>,
}

impl View for Receiving {
    type V = ReceivingView;

    open spec fn view(&self) -> ReceivingView {
        ReceivingView {
            overwrite: self.overwrite,
            phase: self.phase@,
            got: self.got@,
            session: self.session@,
            left: self.list.left,
            hashes: self.list.hashes@,
        }
    }
}

impl ReceivingView {
    /// What holds at every step.
    pub open spec fn wf(self) -> bool {
        &&& self.session.wf()
        &&& self.phase matches PhaseView::Payload(e) ==> self.session.has_room()
        &&& self.phase matches PhaseView::Look(e) ==> self.session.has_room() && destination(
            e.rel,
        ) is Ok
        &&& self.phase matches PhaseView::Make(e) ==> self.session.has_room() && destination(
            e.rel,
        ) is Ok
        &&& self.phase is Hashes ==> self.left > 0
        &&& self.phase matches PhaseView::Verify(i) ==> i < self.session.shards.len() && to_verify(
            self.session,
            self.hashes,
            i as int,
        ) is Some
    }

    /// Whether this is the sort of thing that can happen now.
    pub open spec fn awaits(self, ev: RecvEvent) -> bool {
        match self.phase {
            PhaseView::Handshake => ev is Bytes,
            PhaseView::Verdict => ev is Verdict,
            PhaseView::Header => ev is Bytes || ev is Done,
            PhaseView::Payload(_) => ev is Bytes,
            PhaseView::Look(_) => ev is There,
            PhaseView::Make(_) => ev is Done,
            PhaseView::HashCount => ev matches RecvEvent::Bytes(b) && b@.len() >= 8,
            PhaseView::Hashes => ev matches RecvEvent::Bytes(b) && b@.len() >= 16,
            PhaseView::Drain => ev is Time,
            PhaseView::Join => ev is Done,
            PhaseView::Verify(_) => ev is Digest,
            PhaseView::Over => false,
        }
    }
}

/// The bytes that came with what happened.
pub open spec fn bytes_in(ev: RecvEvent) -> Seq<u8> {
    match ev {
        RecvEvent::Bytes(b) => b@,
        _ => Seq::empty(),
    }
}

/// The transfer is given up.
pub open spec fn given_up(m: ReceivingView, m2: ReceivingView, a: RecvAction, f: RecvFault) -> bool {
    a == RecvAction::Fail(f) && m2 == (ReceivingView { phase: PhaseView::Over, ..m })
}

/// More of a message is asked for, up to `n` bytes from its start.
pub open spec fn asks_more(
    m: ReceivingView,
    buf: Seq<u8>,
    n: nat,
    m2: ReceivingView,
    a: RecvAction,
) -> bool {
    a == RecvAction::Read((n - buf.len()) as usize) && m2 == (ReceivingView { got: buf, ..m })
}

/// While the handshake is read.
pub open spec fn handshake_acts(
    m: ReceivingView,
    buf: Seq<u8>,
    m2: ReceivingView,
    a: RecvAction,
) -> bool {
    match handshake_step(buf) {
        HandshakeStep::Need(n) => asks_more(m, buf, n as nat, m2, a),
        HandshakeStep::Mismatch => (a matches RecvAction::Refuse(answer) && answer@ == reply_bytes(
            1,
            1,
        )) && m2 == (ReceivingView { phase: PhaseView::Over, ..m }),
        HandshakeStep::Done(h) => a == RecvAction::Ask(h) && m2 == (ReceivingView {
            phase: PhaseView::Verdict,
            got: Seq::empty(),
            session: recv_start(h, m.overwrite),
            ..m
        }),
    }
}

/// When it was decided whether the sender is let in.
pub open spec fn verdict_acts(
    m: ReceivingView,
    allowed: bool,
    port: u16,
    m2: ReceivingView,
    a: RecvAction,
) -> bool {
    if allowed {
        (a matches RecvAction::Begin(answer) && answer@ == verdict_bytes(true, port)) && m2 == (
        ReceivingView { phase: PhaseView::Header, ..m })
    } else {
        (a matches RecvAction::Refuse(answer) && answer@ == verdict_bytes(false, port)) && m2 == (
        ReceivingView { phase: PhaseView::Over, ..m })
    }
}

/// When a header was read.
pub open spec fn entry_acts(
    m: ReceivingView,
    e: EntryView,
    m2: ReceivingView,
    a: RecvAction,
) -> bool {
    if !m.session.has_room() {
        given_up(m, m2, a, RecvFault::TooMany)
    } else {
        match e.kind {
            EntryKind::Inline { wire_len, .. } => a == RecvAction::Read(wire_len as usize) && m2 == (
            ReceivingView { phase: PhaseView::Payload(e), got: Seq::empty(), ..m }),
            EntryKind::Dir => match destination(e.rel) {
                Ok(parts) => (a matches RecvAction::MakeDir { dest, mtime } && texts(dest@) == parts
                    && mtime == time_to_set(e.mtime)) && m2 == (ReceivingView {
                    got: Seq::empty(),
                    session: after_entry(m.session),
                    ..m
                }),
                Err(f) => given_up(m, m2, a, RecvFault::File(FileError::Path(f))),
            },
            EntryKind::Sharded { .. } => match destination(e.rel) {
                Ok(parts) => (a matches RecvAction::Look(dest) && texts(dest@) == parts) && m2 == (
                ReceivingView {
                    phase: PhaseView::Look(e),
                    got: Seq::empty(),
                    ..m
                }),
                Err(f) => given_up(m, m2, a, RecvFault::File(FileError::Path(f))),
            },
        }
    }
}

/// While headers are read.
pub open spec fn header_acts(
    m: ReceivingView,
    buf: Seq<u8>,
    m2: ReceivingView,
    a: RecvAction,
) -> bool {
    match entry_step(buf) {
        EntryStepView::Need(n) => asks_more(m, buf, n, m2, a),
        EntryStepView::End => a == RecvAction::Read(8) && m2 == (ReceivingView {
            phase: PhaseView::HashCount,
            got: Seq::empty(),
            ..m
        }),
        EntryStepView::Unknown(t) => given_up(m, m2, a, RecvFault::UnknownEntry(t)),
        EntryStepView::PathTooLong => given_up(m, m2, a, RecvFault::PathTooLong),
        EntryStepView::BadUtf8 => given_up(m, m2, a, RecvFault::BadUtf8),
        EntryStepView::TooBig(n) => given_up(m, m2, a, RecvFault::TooBig(n)),
        EntryStepView::Header { entry, .. } => entry_acts(m, entry, m2, a),
    }
}

/// When there is room for a sharded file, or the file that was there is kept.
pub open spec fn placed_acts(
    m: ReceivingView,
    e: EntryView,
    kept: bool,
    m2: ReceivingView,
    a: RecvAction,
) -> bool {
    a == RecvAction::Read(1) && m2 == (ReceivingView {
        phase: PhaseView::Header,
        got: Seq::empty(),
        session: after_shard_placed(m.session, destination(e.rel)->Ok_0, e.size, e.mtime, kept),
        ..m
    })
}

/// When the bytes behind the header of a file were read.
pub open spec fn payload_acts(
    m: ReceivingView,
    e: EntryView,
    payload: Seq<u8>,
    m2: ReceivingView,
    a: RecvAction,
) -> bool {
    if compressed(e.flags) && !unpackable(payload) {
        given_up(m, m2, a, RecvFault::File(FileError::UntriedBlock))
    } else {
        match arrived(e, payload) {
            None => given_up(m, m2, a, RecvFault::File(FileError::BadBlock)),
            Some(content) => match destination(e.rel) {
                Err(f) => given_up(m, m2, a, RecvFault::File(FileError::Path(f))),
                Ok(_) => (a matches RecvAction::Write(w) && places(w, m.session, e, content)) && m2
                    == (ReceivingView {
                    phase: PhaseView::Header,
                    got: Seq::empty(),
                    session: after_file(m.session, e, content.len(), content_hash(content)),
                    ..m
                }),
            },
        }
    }
}

/// While the data streams are waited for.
pub open spec fn drain_acts(
    m: ReceivingView,
    time_is_up: bool,
    m2: ReceivingView,
    a: RecvAction,
) -> bool {
    if all_arrived(m.session) || time_is_up {
        a == RecvAction::Join && m2 == (ReceivingView { phase: PhaseView::Join, ..m })
    } else {
        a == RecvAction::Wait && m2 == (ReceivingView { phase: PhaseView::Drain, ..m })
    }
}

/// The first sharded file, from a position on, whose hash is checked.
pub open spec fn next_check(s: RecvState, hashes: Map<u64, u64>, from: nat) -> Option<nat>
    decreases s.shards.len() - from,
{
    if from >= s.shards.len() {
        None
    } else if to_verify(s, hashes, from as int) is Some {
        Some(from)
    } else {
        next_check(s, hashes, from + 1)
    }
}

/// While hashes are checked.
pub open spec fn check_acts(
    m: ReceivingView,
    from: nat,
    m2: ReceivingView,
    a: RecvAction,
) -> bool {
    match next_check(m.session, m.hashes, from) {
        Some(i) => a == RecvAction::Hash(i as usize) && m2 == (ReceivingView {
            phase: PhaseView::Verify(i as usize),
            ..m
        }),
        None => (a matches RecvAction::Finish(ack) && ack@ == ack_bytes(m.session.mismatches)) && m2
            == (ReceivingView { phase: PhaseView::Over, ..m }),
    }
}

/// What is done after what happened.
pub open spec fn receiving_acts(
    m: ReceivingView,
    ev: RecvEvent,
    m2: ReceivingView,
    a: RecvAction,
) -> bool {
    let b = bytes_in(ev);
    match m.phase {
        PhaseView::Handshake => handshake_acts(m, m.got + b, m2, a),
        PhaseView::Verdict => verdict_acts(m, ev->allowed, ev->port, m2, a),
        PhaseView::Header => if ev is Done {
            a == RecvAction::Read(1) && m2 == (ReceivingView { got: Seq::empty(), ..m })
        } else {
            header_acts(m, m.got + b, m2, a)
        },
        PhaseView::Payload(e) => payload_acts(m, e, b, m2, a),
        PhaseView::Look(e) => match shard_place(m.session.overwrite, ev->There_0) {
            ShardPlace::Create => (a matches RecvAction::Make { dest, size } && texts(dest@)
                == destination(e.rel)->Ok_0 && size == e.size) && m2 == (ReceivingView {
                phase: PhaseView::Make(e),
                ..m
            }),
            ShardPlace::Keep => placed_acts(m, e, true, m2, a),
        },
        PhaseView::Make(e) => placed_acts(m, e, false, m2, a),
        PhaseView::HashCount => {
            let n = field(b, 0, 8) as u64;
            let m1 = ReceivingView { left: n, hashes: Map::empty(), ..m };
            if n == 0 {
                drain_acts(m1, false, m2, a)
            } else {
                a == RecvAction::Read(16) && m2 == (ReceivingView {
                    phase: PhaseView::Hashes,
                    ..m1
                })
            }
        },
        PhaseView::Hashes => {
            let m1 = ReceivingView {
                left: (m.left - 1) as u64,
                hashes: m.hashes.insert(field(b, 0, 8) as u64, field(b, 8, 8) as u64),
                ..m
            };
            if m1.left == 0 {
                drain_acts(m1, false, m2, a)
            } else {
                a == RecvAction::Read(16) && m2 == m1
            }
        },
        PhaseView::Drain => drain_acts(m, ev->Time_0, m2, a),
        PhaseView::Join => check_acts(m, 0, m2, a),
        PhaseView::Verify(i) => if m.session.mismatches == u64::MAX {
            given_up(m, m2, a, RecvFault::TooMany)
        } else {
            check_acts(
                ReceivingView {
                    session: after_verify(
                        m.session,
                        to_verify(m.session, m.hashes, i as int)->0,
                        ev->Digest_0,
                    ),
                    ..m
                },
                (i + 1) as nat,
                m2,
                a,
            )
        },
        PhaseView::Over => true,
    }
}

impl Receiving {
    /// A connection that was just taken; the first thing to do is to read the
    /// greeting.
    pub fn start(overwrite: bool) -> (r: (Receiving, RecvAction))
        ensures
            r.0@.wf(),
            r.0@.overwrite == overwrite,
            r.0@.phase is Handshake,
            r.0@.got == Seq::<u8>::empty(),
            r.0@.session.shards.len() == 0,
            r.1 == RecvAction::Read(GREETING_LEN),
    {
        let none = Handshake { flags: 0, token: 0, nstreams: 0, nfiles: 0, total: 0 };
        let m = Receiving {
            overwrite,
            phase: RecvPhase::Handshake,
            got: Vec::new(),
            session: RecvSession::start(&none, overwrite),
            list: HashList::start(0),
        };
        assert(m@.got =~= Seq::empty());
        (m, RecvAction::Read(GREETING_LEN))
    }

    fn fail(&mut self, f: RecvFault) -> (a: RecvAction)
        requires
            old(self)@.wf(),
        ensures
            given_up(old(self)@, final(self)@, a, f),
            final(self)@.wf(),
    {
        self.phase = RecvPhase::Over;
        RecvAction::Fail(f)
    }

    fn on_entry(&mut self, e: Entry) -> (a: RecvAction)
        requires
            old(self)@.wf(),
            old(self)@.phase is Header,
        ensures
            entry_acts(old(self)@, e@, final(self)@, a),
            final(self)@.wf(),
    {
        if !self.session.can_count() {
            return self.fail(RecvFault::TooMany);
        }
        match self.session.on_header(&e) {
            Err(f) => self.fail(RecvFault::File(FileError::Path(f))),
            Ok(HeaderAction::MakeDir { dest, mtime }) => {
                self.got = Vec::new();
                assert(self@.got =~= Seq::empty());
                RecvAction::MakeDir { dest, mtime }
            },
            Ok(HeaderAction::ReadPayload { len }) => {
                self.got = Vec::new();
                assert(self@.got =~= Seq::empty());
                self.phase = RecvPhase::Payload(e);
                RecvAction::Read(len as usize)
            },
            Ok(HeaderAction::PlaceShard { dest }) => {
                self.got = Vec::new();
                assert(self@.got =~= Seq::empty());
                self.phase = RecvPhase::Look(e);
                RecvAction::Look(dest)
            },
        }
    }

    fn on_header_bytes(&mut self, b: &Vec<u8>) -> (a: RecvAction)
        requires
            old(self)@.wf(),
            old(self)@.phase is Header,
        ensures
            header_acts(old(self)@, old(self)@.got + b@, final(self)@, a),
            final(self)@.wf(),
    {
        let mut buf: Vec<u8> = Vec::new();
        buf.extend_from_slice(self.got.as_slice());
        buf.extend_from_slice(b.as_slice());
        assert(buf@ =~= self.got@ + b@);
        match decode_entry(buf.as_slice()) {
            EntryStep::Need(n) => {
                proof {
                    lemma_need_is_more(buf@);
                }
                let more: usize = n - buf.len();
                self.got = buf;
                RecvAction::Read(more)
            },
            EntryStep::End => {
                self.got = Vec::new();
                assert(self@.got =~= Seq::empty());
                self.phase = RecvPhase::HashCount;
                RecvAction::Read(8)
            },
            EntryStep::Unknown(t) => self.fail(RecvFault::UnknownEntry(t)),
            EntryStep::PathTooLong => self.fail(RecvFault::PathTooLong),
            EntryStep::BadUtf8 => self.fail(RecvFault::BadUtf8),
            EntryStep::TooBig(n) => self.fail(RecvFault::TooBig(n)),
            EntryStep::Header { entry, used } => self.on_entry(entry),
        }
    }

    fn on_handshake_bytes(&mut self, b: &Vec<u8>) -> (a: RecvAction)
        requires
            old(self)@.wf(),
            old(self)@.phase is Handshake,
        ensures
            handshake_acts(old(self)@, old(self)@.got + b@, final(self)@, a),
            final(self)@.wf(),
    {
        let mut buf: Vec<u8> = Vec::new();
        buf.extend_from_slice(self.got.as_slice());
        buf.extend_from_slice(b.as_slice());
        assert(buf@ =~= self.got@ + b@);
        match decode_handshake(buf.as_slice()) {
            HandshakeStep::Need(n) => {
                let more: usize = n - buf.len();
                self.got = buf;
                RecvAction::Read(more)
            },
            HandshakeStep::Mismatch => {
                self.phase = RecvPhase::Over;
                RecvAction::Refuse(encode_reject())
            },
            HandshakeStep::Done(h) => {
                self.got = Vec::new();
                assert(self@.got =~= Seq::empty());
                self.session = RecvSession::start(&h, self.overwrite);
                self.phase = RecvPhase::Verdict;
                RecvAction::Ask(h)
            },
        }
    }

    fn on_payload(&mut self, e: &Entry, payload: Vec<u8>) -> (a: RecvAction)
        requires
            old(self)@.wf(),
            old(self)@.session.has_room(),
        ensures
            payload_acts(old(self)@, e@, payload@, final(self)@, a),
            final(self)@.wf(),
    {
        match self.session.on_payload(e, payload) {
            Ok(w) => {
                self.got = Vec::new();
                assert(self@.got =~= Seq::empty());
                self.phase = RecvPhase::Header;
                RecvAction::Write(w)
            },
            Err(f) => self.fail(RecvFault::File(f)),
        }
    }

    fn make(&mut self, e: Entry) -> (a: RecvAction)
        requires
            old(self)@.session.wf(),
            old(self)@.session.has_room(),
            destination(e.rel@) is Ok,
        ensures
            a matches RecvAction::Make { dest, size } && texts(dest@) == destination(e.rel@)->Ok_0
                && size == e.size,
            final(self)@ == (ReceivingView { phase: PhaseView::Make(e@), ..old(self)@ }),
            final(self)@.wf(),
    {
        let dest = match wire_to_path(e.rel.as_str()) {
            Ok(dest) => dest,
            Err(_) => Vec::new(),
        };
        let size: u64 = e.size;
        self.phase = RecvPhase::Make(e);
        RecvAction::Make { dest, size }
    }

    fn placed(&mut self, e: &Entry, kept: bool) -> (a: RecvAction)
        requires
            old(self)@.session.wf(),
            old(self)@.session.has_room(),
            destination(e.rel@) is Ok,
        ensures
            placed_acts(old(self)@, e@, kept, final(self)@, a),
            final(self)@.wf(),
    {
        self.got = Vec::new();
        assert(self@.got =~= Seq::empty());
        self.phase = RecvPhase::Header;
        match wire_to_path(e.rel.as_str()) {
            Ok(dest) => {
                self.session.shard_placed(dest, e.size, e.mtime, kept);
            },
            Err(_) => {},
        }
        RecvAction::Read(1)
    }

    fn drain(&mut self, time_is_up: bool) -> (a: RecvAction)
        requires
            old(self)@.session.wf(),
        ensures
            drain_acts(old(self)@, time_is_up, final(self)@, a),
            final(self)@.wf(),
    {
        match wait_step(self.session.complete(), time_is_up) {
            WaitStep::Again => {
                self.phase = RecvPhase::Drain;
                RecvAction::Wait
            },
            _ => {
                self.phase = RecvPhase::Join;
                RecvAction::Join
            },
        }
    }

    fn check_from(&mut self, from: usize) -> (a: RecvAction)
        requires
            old(self)@.session.wf(),
            from <= old(self)@.session.shards.len(),
        ensures
            check_acts(old(self)@, from as nat, final(self)@, a),
            final(self)@.wf(),
    {
        let mut i: usize = from;
        while i < self.session.shards.len()
            invariant
                self@ == old(self)@,
                self@.session.wf(),
                from <= i <= self@.session.shards.len(),
                next_check(self@.session, self@.hashes, i as nat) == next_check(
                    self@.session,
                    self@.hashes,
                    from as nat,
                ),
            decreases self@.session.shards.len() - i,
        {
            if self.session.expected_hash(&self.list.hashes, i).is_some() {
                self.phase = RecvPhase::Verify(i);
                return RecvAction::Hash(i);
            }
            i = i + 1;
        }
        self.phase = RecvPhase::Over;
        RecvAction::Finish(self.session.ack())
    }

    /// Counts a chunk that was written to the sharded file at position `i`, and
    /// says what is reported.
    pub fn on_chunk(&mut self, i: usize, len: u64) -> (r: TransferUpdate)
        requires
            old(self)@.wf(),
            i < old(self)@.session.shards.len(),
        ensures
            final(self)@ == (ReceivingView {
                session: after_chunk_written(old(self)@.session, i as int, len),
                ..old(self)@
            }),
            r@ == status_report(
                final(self)@.session.sent,
                final(self)@.session.total,
                "Receiving..."@,
            ),
            final(self)@.wf(),
    {
        self.session.on_chunk(i, len)
    }

    /// Takes what happened, and says what to do next.
    pub fn step(&mut self, ev: RecvEvent) -> (a: RecvAction)
        requires
            old(self)@.wf(),
            old(self)@.awaits(ev),
        ensures
            receiving_acts(old(self)@, ev, final(self)@, a),
            final(self)@.wf(),
    {
        let mut phase = RecvPhase::Over;
        std::mem::swap(&mut phase, &mut self.phase);
        match (phase, ev) {
            (RecvPhase::Handshake, RecvEvent::Bytes(b)) => {
                self.phase = RecvPhase::Handshake;
                self.on_handshake_bytes(&b)
            },
            (RecvPhase::Verdict, RecvEvent::Verdict { allowed, port }) => {
                let answer = encode_verdict(allowed, port);
                if allowed {
                    self.phase = RecvPhase::Header;
                    RecvAction::Begin(answer)
                } else {
                    RecvAction::Refuse(answer)
                }
            },
            (RecvPhase::Header, RecvEvent::Bytes(b)) => {
                self.phase = RecvPhase::Header;
                self.on_header_bytes(&b)
            },
            (RecvPhase::Header, RecvEvent::Done) => {
                self.phase = RecvPhase::Header;
                self.got = Vec::new();
                assert(self@.got =~= Seq::empty());
                RecvAction::Read(1)
            },
            (RecvPhase::Payload(e), RecvEvent::Bytes(b)) => self.on_payload(&e, b),
            (RecvPhase::Look(e), RecvEvent::There(there)) => match self.session.place_shard(
                there,
            ) {
                ShardPlace::Create => self.make(e),
                ShardPlace::Keep => self.placed(&e, true),
            },
            (RecvPhase::Make(e), RecvEvent::Done) => self.placed(&e, false),
            (RecvPhase::HashCount, RecvEvent::Bytes(b)) => {
                let n: u64 = match read_u64(b.as_slice(), 0) {
                    Some(n) => n,
                    None => 0,
                };
                self.list = HashList::start(n);
                if n == 0 {
                    self.drain(false)
                } else {
                    self.phase = RecvPhase::Hashes;
                    RecvAction::Read(16)
                }
            },
            (RecvPhase::Hashes, RecvEvent::Bytes(b)) => {
                if let Some((idx, hash)) = decode_hash(b.as_slice()) {
                    self.list.add(idx, hash);
                }
                if self.list.left == 0 {
                    self.drain(false)
                } else {
                    self.phase = RecvPhase::Hashes;
                    RecvAction::Read(16)
                }
            },
            (RecvPhase::Drain, RecvEvent::Time(t)) => self.drain(t),
            (RecvPhase::Join, RecvEvent::Done) => self.check_from(0),
            (RecvPhase::Verify(i), RecvEvent::Digest(d)) => {
                if self.session.mismatches == u64::MAX {
                    return RecvAction::Fail(RecvFault::TooMany);
                }
                if let Some(expected) = self.session.expected_hash(&self.list.hashes, i) {
                    self.session.on_verified(expected, d);
                }
                let count: usize = self.session.shards.len();
                assert(i < count);
                self.check_from(i + 1)
            },
            _ => RecvAction::Fail(RecvFault::TooMany),
        }
    }
}

proof fn lemma_need_is_more(buf: Seq<u8>)
    ensures
        entry_step(buf) matches EntryStepView::Need(n) ==> n > buf.len(),
{
}

/// An entry that can be taken is taken: once its header was read, and then its
/// bytes or its place where it has any, the transfer stands where the entry takes
/// it, and the next header can be read.
pub proof fn law_entry_is_taken(
    m: ReceivingView,
    e: EntryView,
    payload: Vec<u8>,
    there: bool,
    m1: ReceivingView,
    a1: RecvAction,
    m2: ReceivingView,
    a2: RecvAction,
    m3: ReceivingView,
    a3: RecvAction,
)
    requires
        m.phase is Header,
        m.session.has_room(),
        entry_acts(m, e, m1, a1),
        match e.kind {
            EntryKind::Dir => m2 == m1,
            EntryKind::Inline { .. } => receiving_acts(m1, RecvEvent::Bytes(payload), m2, a2),
            EntryKind::Sharded { .. } => receiving_acts(m1, RecvEvent::There(there), m2, a2),
        },
        m2.phase is Make ==> receiving_acts(m2, RecvEvent::Done, m3, a3),
        m2.phase !is Make ==> m3 == m2,
        taken(m.session, (e, payload@), there) is Some,
    ensures
        m3.phase is Header,
        m3.session == taken(m.session, (e, payload@), there)->0,
        m3.got == Seq::<u8>::empty(),
{
}

/// A file that is there, and is not to be overwritten, is skipped: no room is made
/// for it, none of its chunks goes anywhere, and its hash is not checked.
pub proof fn law_existing_file_is_skipped(
    m: ReceivingView,
    e: EntryView,
    m2: ReceivingView,
    a: RecvAction,
    hashes: Map<u64, u64>,
)
    requires
        m.phase == PhaseView::Look(e),
        !m.session.overwrite,
        receiving_acts(m, RecvEvent::There(true), m2, a),
    ensures
        a == RecvAction::Read(1),
        m2.phase is Header,
        m2.session.shards.last().kept,
        m2.session.shards.last().idx == m.session.idx,
        to_verify(m2.session, hashes, m2.session.shards.len() - 1) is None,
        m2.session.mismatches == m.session.mismatches,
{
}

/// No bytes flow before the sender is let in: until that was decided nothing is
/// made or written, and no entry is read; a sender that is not let in is told so,
/// and that is the end of it.
pub proof fn law_nothing_flows_before_approval(
    m: ReceivingView,
    ev: RecvEvent,
    m2: ReceivingView,
    a: RecvAction,
)
    requires
        m.phase is Handshake || m.phase is Verdict,
        m.awaits(ev),
        receiving_acts(m, ev, m2, a),
    ensures
        a is Read || a is Ask || a is Begin || a is Refuse,
        m.phase is Handshake ==> m2.phase is Handshake || m2.phase is Over || (m2.phase is Verdict
            && a is Ask),
        m.phase is Verdict ==> {
            let told = match a {
                RecvAction::Begin(answer) => reply_step(answer@),
                RecvAction::Refuse(answer) => reply_step(answer@),
                _ => ReplyStep::Mismatch,
            };
            if ev->allowed {
                a is Begin && m2.phase is Header && told == ReplyStep::Accepted(ev->port)
            } else {
                a is Refuse && m2.phase is Over && told == ReplyStep::Rejected(DENIED)
            }
        },
{
    if m.phase is Verdict {
        law_verdict_read_back(ev->allowed, ev->port);
    }
}

/// A file that came on the control stream is written as it was decoded, and a
/// changed one is noticed: where hashes are checked and the header names a hash, the
/// count of mismatches grows by one more just where the bytes have another hash,
/// and by one where their number is not the one in the header.
pub proof fn law_changed_file_is_noticed(
    m: ReceivingView,
    e: EntryView,
    hash: u64,
    wire_len: u64,
    payload: Vec<u8>,
    content: Seq<u8>,
    m2: ReceivingView,
    a: RecvAction,
)
    requires
        m.phase == PhaseView::Payload(e),
        e.kind == (EntryKind::Inline { hash, wire_len }),
        m.session.idx < u64::MAX,
        m.session.mismatches <= u64::MAX - 2,
        receiving_acts(m, RecvEvent::Bytes(payload), m2, a),
        e.flags & 1 == 0 ==> content == payload@,
        e.flags & 1 != 0 ==> lz4_content(payload@) == Some(content) && unpackable(payload@),
        destination(e.rel) is Ok,
    ensures
        a is Write,
        a->Write_0.content@ == content,
        texts(a->Write_0.dest@) == destination(e.rel)->Ok_0,
        m2.phase is Header,
        m2.session.idx == m.session.idx + 1,
        m2.session.mismatches == m.session.mismatches + (if content.len() == e.size {
            0int
        } else {
            1
        }) + (if m.session.checksum && hash != 0 && content_hash(content) != hash {
            1int
        } else {
            0
        }),
{
}

/// A file is given up on where its bytes are no block though its header says so,
/// or its path leads nowhere; it is not counted then.
pub proof fn law_bad_file_ends_the_transfer(
    m: ReceivingView,
    e: EntryView,
    payload: Vec<u8>,
    m2: ReceivingView,
    a: RecvAction,
)
    requires
        m.phase == PhaseView::Payload(e),
        receiving_acts(m, RecvEvent::Bytes(payload), m2, a),
    ensures
        a is Fail || a is Write,
        a is Fail <==> (e.flags & 1 != 0 && (!unpackable(payload@) || lz4_content(payload@) is None))
            || destination(e.rel) is Err,
        a is Fail ==> m2.phase is Over && m2.session == m.session,
{
}

/// The files whose hashes are checked are gone through one by one: the next to be
/// checked is the first from there on that was not kept and for which a hash was
/// named, where hashes are checked at all; where there is none, the last answer
/// gives the mismatches.
pub proof fn law_no_check_is_left_out(m: ReceivingView, from: nat, m2: ReceivingView, a: RecvAction)
    requires
        check_acts(m, from, m2, a),
        m.session.shards.len() <= usize::MAX,
    ensures
        ({
            let s = m.session;
            let last = if a is Hash {
                a->Hash_0 as int
            } else {
                s.shards.len() as int
            };
            &&& a is Hash || a is Finish
            &&& forall|j: int|
                from <= j < last ==> !s.checksum || (#[trigger] s.shards[j]).kept
                    || !m.hashes.dom().contains(s.shards[j].idx) || m.hashes[s.shards[j].idx] == 0
            &&& a is Hash ==> {
                let f = s.shards[last];
                &&& from <= last < s.shards.len()
                &&& s.checksum && !f.kept
                &&& m.hashes.dom().contains(f.idx) && m.hashes[f.idx] != 0
                &&& m2.phase == PhaseView::Verify(last as usize)
            }
            &&& a is Finish ==> a->Finish_0@ == ack_bytes(s.mismatches) && m2.phase is Over
            &&& m2.session == s
        }),
{
    lemma_next_check_is_first(m.session, m.hashes, from);
}

proof fn lemma_next_check_is_first(s: RecvState, hashes: Map<u64, u64>, from: nat)
    ensures
        ({
            let next = next_check(s, hashes, from);
            let last = if next is Some {
                next->0 as int
            } else {
                s.shards.len() as int
            };
            &&& next is Some ==> from <= last < s.shards.len() && to_verify(s, hashes, last) is Some
            &&& forall|j: int|
                from <= j < last ==> !s.checksum || (#[trigger] s.shards[j]).kept
                    || !hashes.dom().contains(s.shards[j].idx) || hashes[s.shards[j].idx] == 0
        }),
    decreases s.shards.len() - from,
{
    if from < s.shards.len() && to_verify(s, hashes, from as int) is None {
        lemma_next_check_is_first(s, hashes, from + 1);
    }
}

/// A sharded file whose hash was taken counts for one mismatch just where that is
/// not the hash that was named for it.
pub proof fn law_changed_sharded_file_is_noticed(
    m: ReceivingView,
    i: usize,
    digest: Option<u64>,
    m2: ReceivingView,
    a: RecvAction,
)
    requires
        m.phase == PhaseView::Verify(i),
        m.wf(),
        m.session.mismatches < u64::MAX,
        receiving_acts(m, RecvEvent::Digest(digest), m2, a),
    ensures
        m2.session.mismatches == m.session.mismatches + (if digest is Some && digest->0
            == m.hashes[m.session.shards[i as int].idx] {
            0int
        } else {
            1
        }),
{
}

/// The data streams are waited for until each sharded file has at least as many
/// bytes as it is long, or the time is up, and not beyond that.
pub proof fn law_waits_for_what_is_missing(
    m: ReceivingView,
    time_is_up: bool,
    m2: ReceivingView,
    a: RecvAction,
)
    requires
        m.phase is Drain,
        receiving_acts(m, RecvEvent::Time(time_is_up), m2, a),
    ensures
        a is Join || a is Wait,
        a is Wait <==> !time_is_up && exists|i: int|
            0 <= i < m.session.shards.len() && (#[trigger] m.session.shards[i]).received
                < m.session.shards[i].size,
        a is Join ==> m2.phase is Join,
        a is Wait ==> m2.phase is Drain,
        m2.session == m.session,
{
}

/// A folder is made where its path leads to, with its time where it has one, and
/// counts as one entry; a path that leads nowhere ends the transfer.
pub proof fn law_folder_is_made(m: ReceivingView, e: EntryView, m2: ReceivingView, a: RecvAction)
    requires
        m.session.idx < u64::MAX,
        m.session.mismatches <= u64::MAX - 2,
        e.kind is Dir,
        entry_acts(m, e, m2, a),
    ensures
        destination(e.rel) is Err ==> a is Fail && m2.phase is Over,
        destination(e.rel) is Ok ==> {
            &&& a is MakeDir
            &&& texts(a->MakeDir_dest@) == destination(e.rel)->Ok_0
            &&& e.mtime == 0 ==> a->MakeDir_mtime is None
            &&& e.mtime != 0 ==> a->MakeDir_mtime == Some(e.mtime)
            &&& m2.session.idx == m.session.idx + 1
            &&& m2.session.mismatches == m.session.mismatches
            &&& m2.session.shards == m.session.shards
            &&& m2.session.sent == m.session.sent
        },
{
}

/// Room is made for a sharded file where there is none, or where files are
/// replaced: a file of the length that its header gives, at the place that its path
/// leads to.
pub proof fn law_room_is_made(
    m: ReceivingView,
    e: EntryView,
    there: bool,
    m2: ReceivingView,
    a: RecvAction,
)
    requires
        m.phase == PhaseView::Look(e),
        receiving_acts(m, RecvEvent::There(there), m2, a),
    ensures
        a is Make <==> m.session.overwrite || !there,
        a is Make ==> {
            &&& texts(a->Make_dest@) == destination(e.rel)->Ok_0
            &&& a->Make_size == e.size
            &&& m2.phase == PhaseView::Make(e)
            &&& m2.session == m.session
        },
{
}

/// A sender that is refused learns that it is, and why.
pub proof fn law_refused_sender_is_told(
    m: ReceivingView,
    buf: Seq<u8>,
    m2: ReceivingView,
    a: RecvAction,
)
    requires
        handshake_step(buf) is Mismatch,
        handshake_acts(m, buf, m2, a),
    ensures
        a matches RecvAction::Refuse(answer) && reply_step(answer@) == ReplyStep::Rejected(1),
        m2.phase is Over,
{
    law_reply_read_back(1, 1);
}

// ---------------------------------------------------------------------------
// A data connection
// ---------------------------------------------------------------------------

/// Where a data connection stands.
#[derive(Clone, Copy, Debug, PartialEq, Eq, Structural)]
pub enum DataPhase {
    /// Its opening is being read.
    Hello,
    /// The opening was answered, or a chunk was written.
    Ready,
    /// The header of a chunk is being read.
    Head,
    /// The bytes of a chunk are being read.
    Body { file_idx: u64, offset: u64 },
    Over,
}

/// What happened on a data connection.
#[derive(Debug)]
pub enum DataEvent {
    /// The bytes that were asked for were read.
    Bytes(Vec<u8>),
    /// The connection ended before they were.
    End,
    /// What was asked for was done.
    Done,
}

/// Why a data connection is given up.
#[derive(Clone, Copy, Debug, PartialEq, Eq, Structural)]
pub enum DataFault {
    /// Its opening is that of another transfer.
    BadHello,
    /// No chunk has this length.
    BadLen(u32),
    /// It ended within its opening or within a chunk.
    CutShort,
}

/// What to do next on a data connection.
#[derive(Debug)]
pub enum DataAction {
    Read(usize),
    /// Send this answer to the opening.
    Answer(u8),
    /// Write a chunk, once the file is known by its index, or drop it where the
    /// file is kept.
    Write { file_idx: u64, offset: u64, data: Vec<u8> },
    /// All chunks came.
    Finish,
    Fail(DataFault),
}

/// A data connection.
pub struct DataConn {
    pub token: u64,
    pub phase: DataPhase,
    /// Whether the opening was refused.
    pub refused: bool,
}

impl DataConn {
    /// Whether this is the sort of thing that can happen now.
    pub open spec fn awaits(self, ev: DataEvent) -> bool {
        match self.phase {
            DataPhase::Hello => ev is End || (ev matches DataEvent::Bytes(b) && b@.len()
                >= HELLO_LEN),
            DataPhase::Ready => ev is Done,
            DataPhase::Head => ev is End || (ev matches DataEvent::Bytes(b) && b@.len()
                >= CHUNK_HEAD_LEN),
            DataPhase::Body { .. } => ev is End || ev is Bytes,
            DataPhase::Over => false,
        }
    }
}

/// What is done on a data connection after what happened.
pub open spec fn data_acts(c: DataConn, ev: DataEvent, c2: DataConn, a: DataAction) -> bool {
    let over = DataConn { phase: DataPhase::Over, ..c };
    match c.phase {
        DataPhase::Hello => match ev {
            DataEvent::Bytes(b) => {
                let answer = hello_answer(b@, c.token)->0;
                a == DataAction::Answer(answer) && c2 == (DataConn {
                    phase: DataPhase::Ready,
                    refused: answer != 0,
                    ..c
                })
            },
            _ => a == DataAction::Fail(DataFault::CutShort) && c2 == over,
        },
        DataPhase::Ready => if c.refused {
            a == DataAction::Fail(DataFault::BadHello) && c2 == over
        } else {
            a == DataAction::Read(CHUNK_HEAD_LEN) && c2 == (DataConn {
                phase: DataPhase::Head,
                ..c
            })
        },
        DataPhase::Head => match ev {
            DataEvent::Bytes(b) => match chunk_step(b@) {
                ChunkStep::Head { file_idx, offset, len } => a == DataAction::Read(len as usize)
                    && c2 == (DataConn { phase: DataPhase::Body { file_idx, offset }, ..c }),
                ChunkStep::BadLen(n) => a == DataAction::Fail(DataFault::BadLen(n)) && c2 == over,
                ChunkStep::Need(_) => true,
            },
            _ => a is Finish && c2 == over,
        },
        DataPhase::Body { file_idx, offset } => match ev {
            DataEvent::Bytes(b) => a == (DataAction::Write { file_idx, offset, data: b }) && c2 == (
            DataConn { phase: DataPhase::Ready, ..c }),
            _ => a == DataAction::Fail(DataFault::CutShort) && c2 == over,
        },
        DataPhase::Over => true,
    }
}

impl DataConn {
    /// A connection that was just taken, for the transfer with this token.
    pub fn start(token: u64) -> (r: (DataConn, DataAction))
        ensures
            r.0 == (DataConn { token, phase: DataPhase::Hello, refused: false }),
            r.1 == DataAction::Read(HELLO_LEN),
    {
        (DataConn { token, phase: DataPhase::Hello, refused: false }, DataAction::Read(HELLO_LEN))
    }

    /// Takes what happened, and says what to do next.
    pub fn step(&mut self, ev: DataEvent) -> (a: DataAction)
        requires
            old(self).awaits(ev),
        ensures
            data_acts(*old(self), ev, *final(self), a),
    {
        match (self.phase, ev) {
            (DataPhase::Hello, DataEvent::Bytes(b)) => {
                let answer: u8 = match answer_hello(b.as_slice(), self.token) {
                    Some(a) => a,
                    None => 1,
                };
                self.phase = DataPhase::Ready;
                self.refused = answer != 0;
                DataAction::Answer(answer)
            },
            (DataPhase::Ready, _) => {
                if self.refused {
                    self.phase = DataPhase::Over;
                    return DataAction::Fail(DataFault::BadHello);
                }
                self.phase = DataPhase::Head;
                DataAction::Read(CHUNK_HEAD_LEN)
            },
            (DataPhase::Head, DataEvent::Bytes(b)) => {
                match decode_chunk_head(b.as_slice()) {
                    ChunkStep::Head { file_idx, offset, len } => {
                        self.phase = DataPhase::Body { file_idx, offset };
                        DataAction::Read(len as usize)
                    },
                    ChunkStep::BadLen(n) => {
                        self.phase = DataPhase::Over;
                        DataAction::Fail(DataFault::BadLen(n))
                    },
                    ChunkStep::Need(n) => {
                        self.phase = DataPhase::Over;
                        DataAction::Fail(DataFault::CutShort)
                    },
                }
            },
            (DataPhase::Head, _) => {
                self.phase = DataPhase::Over;
                DataAction::Finish
            },
            (DataPhase::Body { file_idx, offset }, DataEvent::Bytes(b)) => {
                self.phase = DataPhase::Ready;
                DataAction::Write { file_idx, offset, data: b }
            },
            _ => {
                self.phase = DataPhase::Over;
                DataAction::Fail(DataFault::CutShort)
            },
        }
    }
}

/// A handshake that is whole is shown to the user, and the transfer starts as it says.
pub proof fn law_handshake_is_shown(
    m: ReceivingView,
    ev: RecvEvent,
    h: Handshake,
    m2: ReceivingView,
    a: RecvAction,
)
    requires
        m.phase is Handshake,
        receiving_acts(m, ev, m2, a),
        ev is Bytes,
        m.got + ev->Bytes_0@ == handshake_bytes(h),
    ensures
        a == RecvAction::Ask(h),
        m2.phase is Verdict,
        m2.session.total == h.total && m2.session.sent == 0 && m2.session.idx == 0,
        m2.session.checksum <==> h.flags & 2 != 0,
        m2.session.overwrite <==> m.overwrite || h.flags & 4 != 0,
        m2.session.mismatches == 0 && m2.session.shards.len() == 0,
{
    let none = Seq::<u8>::empty();
    law_handshake_read_back(h, none);
    assert(handshake_bytes(h) + none =~= handshake_bytes(h));
}

/// A header that came whole is acted on: a folder is made, the bytes of a small file are
/// read, and of a large one it is seen whether it is there.
pub proof fn law_header_is_acted_on(
    m: ReceivingView,
    ev: RecvEvent,
    e: EntryView,
    m2: ReceivingView,
    a: RecvAction,
)
    requires
        m.phase is Header,
        m.session.idx < u64::MAX,
        m.session.mismatches <= u64::MAX - 2,
        sendable(e),
        ev is Bytes,
        m.got + ev->Bytes_0@ == entry_bytes(e),
        receiving_acts(m, ev, m2, a),
        destination(e.rel) is Ok,
    ensures
        e.kind is Dir ==> a is MakeDir && texts(a->MakeDir_dest@) == destination(e.rel)->Ok_0
            && m2.phase is Header && m2.session.idx == m.session.idx + 1,
        e.kind is Inline ==> a == RecvAction::Read(e.kind->wire_len as usize) && m2.phase
            == PhaseView::Payload(e) && m2.session == m.session,
        e.kind is Sharded ==> a is Look && texts(a->Look_0@) == destination(e.rel)->Ok_0 && m2.phase
            == PhaseView::Look(e) && m2.session == m.session,
        m2.got.len() == 0,
{
    let none = Seq::<u8>::empty();
    law_entry_read_back(e, none);
    assert(entry_bytes(e) + none =~= entry_bytes(e));
}

/// A header that cannot be taken ends the transfer, and the fault says why.
pub proof fn law_bad_header_ends_the_transfer(
    m: ReceivingView,
    ev: RecvEvent,
    m2: ReceivingView,
    a: RecvAction,
)
    requires
        m.phase is Header,
        ev is Bytes,
        m.got.len() + ev->Bytes_0@.len() >= 4,
        receiving_acts(m, ev, m2, a),
    ensures
        ({
            let b = m.got + ev->Bytes_0@;
            &&& 2 < b[0] < 255 ==> a == RecvAction::Fail(RecvFault::UnknownEntry(b[0]))
            &&& b[0] <= 2 && field(b, 2, 2) > 16384 ==> a == RecvAction::Fail(
                RecvFault::PathTooLong,
            )
            &&& b[0] == 255 ==> a == RecvAction::Read(8) && m2.phase is HashCount
            &&& a is Fail ==> m2.phase is Over && m2.session == m.session
        }),
{
    law_headers_are_refused_for_cause(m.got + ev->Bytes_0@);
}

/// Once room was made for a file it is listed under the number of its entry, with all of
/// its bytes to come.
pub proof fn law_file_is_listed_once_made(
    m: ReceivingView,
    e: EntryView,
    ev: RecvEvent,
    m2: ReceivingView,
    a: RecvAction,
)
    requires
        m.phase == PhaseView::Make(e),
        m.session.idx < u64::MAX,
        receiving_acts(m, ev, m2, a),
    ensures
        a == RecvAction::Read(1) && m2.phase is Header && m2.got.len() == 0,
        m2.session.shards.len() == m.session.shards.len() + 1,
        m2.session.shards.drop_last() == m.session.shards,
        ({
            let f = m2.session.shards.last();
            &&& f.idx == m.session.idx && f.size == e.size && f.received == 0
            &&& f.mtime == e.mtime && !f.kept && f.dest == destination(e.rel)->Ok_0
        }),
        m2.session.idx == m.session.idx + 1 && m2.session.sent == m.session.sent,
        m2.session.mismatches == m.session.mismatches,
{
    assert(m2.session.shards.drop_last() =~= m.session.shards);
}

/// As many hashes are read as were counted, each under the number of its file.
pub proof fn law_hashes_are_taken(m: ReceivingView, ev: RecvEvent, m2: ReceivingView, a: RecvAction)
    requires
        ev is Bytes,
        ev->Bytes_0@.len() >= 16,
        m.phase is HashCount || (m.phase is Hashes && m.left > 0),
        receiving_acts(m, ev, m2, a),
    ensures
        ({
            let b = ev->Bytes_0@;
            &&& m.phase is HashCount ==> m2.left == field(b, 0, 8) as u64
                && m2.hashes.dom().is_empty()
            &&& m.phase is Hashes ==> {
                &&& m2.left == m.left - 1
                &&& m2.hashes == m.hashes.insert(field(b, 0, 8) as u64, field(b, 8, 8) as u64)
            }
            &&& m2.left > 0 ==> a == RecvAction::Read(16) && m2.phase is Hashes
            &&& m2.left == 0 ==> (a == RecvAction::Join && m2.phase is Join) || (a
                == RecvAction::Wait && m2.phase is Drain)
            &&& m2.session == m.session
        }),
{
    assert(Map::<u64, u64>::empty().dom() =~= Set::empty());
}

/// A data stream is let in just where it opens with the greeting and the token of the
/// transfer, and one that is not ends there.
pub proof fn law_stranger_is_turned_away(
    c: DataConn,
    ev: DataEvent,
    c1: DataConn,
    a1: DataAction,
    c2: DataConn,
    a2: DataAction,
)
    requires
        c.phase == DataPhase::Hello,
        c.awaits(ev),
        data_acts(c, ev, c1, a1),
        c1.phase == DataPhase::Ready ==> data_acts(c1, DataEvent::Done, c2, a2),
    ensures
        ev is End ==> a1 == DataAction::Fail(DataFault::CutShort) && c1.phase == DataPhase::Over,
        ev is Bytes ==> {
            let b = ev->Bytes_0@;
            let known = b.take(6) == six_bytes() && field(b, 6, 8) == c.token;
            &&& a1 is Answer && c1.phase == DataPhase::Ready
            &&& known ==> a1 == DataAction::Answer(0) && a2 == DataAction::Read(20) && c2.phase
                == DataPhase::Head
            &&& !known ==> a1 == DataAction::Answer(1) && a2 == DataAction::Fail(
                DataFault::BadHello,
            ) && c2.phase == DataPhase::Over
        },
{
    if ev is Bytes {
        law_stream_opens_with_the_token(0, ev->Bytes_0@, c.token);
    }
}

/// A chunk is written as it came: under its file's number, at its place, with its
/// bytes. A stream may end between two chunks and nowhere else.
pub proof fn law_chunk_is_written_as_it_came(
    c: DataConn,
    ev: DataEvent,
    c2: DataConn,
    a: DataAction,
)
    requires
        c.awaits(ev),
        data_acts(c, ev, c2, a),
    ensures
        c.phase == DataPhase::Head && ev is End ==> a is Finish && c2.phase == DataPhase::Over,
        c.phase == DataPhase::Head && ev is Bytes ==> {
            let b = ev->Bytes_0@;
            let n = field(b, 16, 4);
            &&& 1 <= n <= 0x100_0000 ==> {
                &&& a == DataAction::Read(n as usize)
                &&& c2.phase == (DataPhase::Body {
                    file_idx: field(b, 0, 8) as u64,
                    offset: field(b, 8, 8) as u64,
                })
            }
            &&& n == 0 || n > 0x100_0000 ==> a == DataAction::Fail(DataFault::BadLen(n as u32))
                && c2.phase == DataPhase::Over
        },
        c.phase is Body && ev is Bytes ==> {
            &&& a is Write && a->Write_file_idx == c.phase->Body_file_idx
            &&& a->Write_offset == c.phase->Body_offset && a->Write_data@ == ev->Bytes_0@
            &&& c2.phase == DataPhase::Ready && c2.refused == c.refused
        },
        c.phase is Body && ev is End ==> a == DataAction::Fail(DataFault::CutShort) && c2.phase
            == DataPhase::Over,
        c2.token == c.token,
{
}

/// The checks begin with the first file and go on behind each file that was checked; no
/// file with a hash to be held against is passed over.
pub proof fn law_checks_go_on(
    m: ReceivingView,
    ev: RecvEvent,
    first: int,
    m2: ReceivingView,
    a: RecvAction,
)
    requires
        m.wf(),
        m.session.shards.len() <= usize::MAX,
        (m.phase is Join && first == 0) || (m.phase is Verify && first == m.phase->Verify_0 + 1
            && m.session.mismatches < u64::MAX),
        receiving_acts(m, ev, m2, a),
    ensures
        ({
            let s = m.session;
            let last = if a is Hash {
                a->Hash_0 as int
            } else {
                s.shards.len() as int
            };
            &&& a is Hash || a is Finish
            &&& a is Hash ==> first <= last < s.shards.len() && m2.phase == PhaseView::Verify(
                last as usize,
            )
            &&& a is Finish ==> m2.phase is Over && a->Finish_0@ == ack_bytes(m2.session.mismatches)
            &&& forall|j: int|
                first <= j < last ==> !s.checksum || (#[trigger] s.shards[j]).kept
                    || !m.hashes.dom().contains(s.shards[j].idx) || m.hashes[s.shards[j].idx] == 0
        }),
{
    if m.phase is Join {
        law_no_check_is_left_out(m, 0, m2, a);
    } else {
        let i = m.phase->Verify_0;
        let s = after_verify(
            m.session,
            to_verify(m.session, m.hashes, i as int)->0,
            ev->Digest_0,
        );
        law_no_check_is_left_out(ReceivingView { session: s, ..m }, (i + 1) as nat, m2, a);
    }
}

} // verus!

//! The receiving of a transfer from the handshake to the last answer.

use vstd::prelude::*;

use crate::data_run::Chunk;
use crate::entry::{
    compressed,
    entry_bytes,
    entry_step,
    law_entry_is_not_read_past,
    law_entry_read_back,
    EntryStepView,
    EntryView,
};
use crate::messages::{
    ack_bytes,
    end_bytes,
    handshake_bytes,
    hash_list_bytes,
    law_handshake_is_not_read_past,
    law_handshake_read_back,
    law_hashes_read_back,
    lemma_hash_list_len,
    Handshake,
    GREETING_LEN,
    HANDSHAKE_LEN,
};
use crate::outside::{content_hash, unpackable};
use crate::path::destination;
use crate::protocol::{ENTRY_END, H_CHECKSUM, H_OVERWRITE};
use crate::receiver::{
    after_chunk_written,
    after_shard_placed,
    after_verify,
    all_arrived,
    arrived,
    faults,
    hash_map,
    to_verify,
    RecvState,
};
use crate::receiving::{
    check_acts,
    next_check,
    receiving_acts,
    PhaseView,
    ReceivingView,
    RecvAction,
    RecvEvent,
};
use crate::sender::item_bytes;
use crate::sender_run::lemma_items_push;
use crate::text::texts;
use crate::transfer::{good_item, items_bytes, written_at};
use crate::wire::{field, le_bytes, lemma_field, lemma_le_bytes_len, lemma_pow256};

verus! {

broadcast use lemma_le_bytes_len;

// ---------------------------------------------------------------------------
// Runs
// ---------------------------------------------------------------------------

/// What lies in the folder that is received into, by the way down to it.
#[verifier::ext_equal]
pub struct Disk {
    pub files: Map<Seq<Seq<char>>, Seq<u8>>,
    pub dirs: Set<Seq<Seq<char>>>,
}

/// Where the receiving of a transfer stands: its state, what is to be done next,
/// how much of the control stream was read, what lies on disk, and which chunks
/// came.
pub struct RecvRun {
    pub m: ReceivingView,
    pub a: RecvAction,
    pub read: nat,
    pub disk: Disk,
    pub came: Set<int>,
}

/// A connection that was just taken.
pub open spec fn recv_begun(r: RecvRun, overwrite: bool, disk: Disk) -> bool {
    &&& r.m.overwrite == overwrite
    &&& r.m.phase is Handshake
    &&& r.m.got.len() == 0
    &&& r.m.session.shards.len() == 0
    &&& r.a == RecvAction::Read(GREETING_LEN)
    &&& r.read == 0
    &&& r.disk == disk
    &&& r.came == Set::<int>::empty()
}

/// The hash of a file, where it is there.
pub open spec fn digest_of(disk: Disk, dest: Seq<Seq<char>>) -> Option<u64> {
    if disk.files.dom().contains(dest) {
        Some(content_hash(disk.files[dest]))
    } else {
        None
    }
}

/// What was asked for is done: the sender is let in, reading gives the next bytes
/// of the control stream, and the time is never up.
pub open spec fn recv_served(r: RecvRun, ev: RecvEvent, stream: Seq<u8>, read: nat) -> bool {
    match r.a {
        RecvAction::Read(n) => read == r.read + n && read <= stream.len() && (
        ev matches RecvEvent::Bytes(b) && b@ == stream.subrange(r.read as int, read as int)),
        RecvAction::Ask(_) => read == r.read && (ev matches RecvEvent::Verdict { allowed, .. }
            && allowed),
        RecvAction::Begin(_) => read == r.read && ev is Done,
        RecvAction::MakeDir { .. } => read == r.read && ev is Done,
        RecvAction::Write(_) => read == r.read && ev is Done,
        RecvAction::Look(dest) => read == r.read && ev == RecvEvent::There(
            r.disk.files.dom().contains(texts(dest@)),
        ),
        RecvAction::Make { .. } => read == r.read && ev is Done,
        RecvAction::Wait => read == r.read && ev == RecvEvent::Time(false),
        RecvAction::Join => read == r.read && ev is Done,
        RecvAction::Hash(i) => read == r.read && ev == RecvEvent::Digest(
            digest_of(r.disk, r.m.session.shards[i as int].dest),
        ),
        _ => false,
    }
}

/// What an action leaves on disk.
pub open spec fn performed(disk: Disk, a: RecvAction, overwrite: bool) -> Disk {
    match a {
        RecvAction::MakeDir { dest, .. } => Disk { dirs: disk.dirs.insert(texts(dest@)), ..disk },
        RecvAction::Write(w) => if overwrite || !disk.files.dom().contains(texts(w.dest@)) {
            Disk { files: disk.files.insert(texts(w.dest@), w.content@), ..disk }
        } else {
            disk
        },
        RecvAction::Make { dest, size } => Disk {
            files: disk.files.insert(texts(dest@), Seq::new(size as nat, |i: int| 0u8)),
            ..disk
        },
        _ => disk,
    }
}

/// One turn on the control connection.
pub open spec fn recv_turn(r: RecvRun, ev: RecvEvent, r2: RecvRun, stream: Seq<u8>) -> bool {
    &&& recv_served(r, ev, stream, r2.read)
    &&& receiving_acts(r.m, ev, r2.m, r2.a)
    &&& r2.disk == performed(r.disk, r2.a, r2.m.session.overwrite)
    &&& r2.came == r.came
}

/// A chunk comes, for the sharded file at position `i`. None comes once the data
/// streams were brought to their end.
pub open spec fn chunk_turn(r: RecvRun, g: int, i: int, r2: RecvRun, chunks: Seq<Chunk>) -> bool {
    let c = chunks[g];
    let f = r.m.session.shards[i];
    let files = r.disk.files;
    &&& 0 <= g < chunks.len()
    &&& !r.came.contains(g)
    &&& !(r.m.phase is Verify) && !(r.m.phase is Over)
    &&& 0 <= i < r.m.session.shards.len()
    &&& f.idx == c.idx
    &&& r2 == (RecvRun {
        m: ReceivingView {
            session: after_chunk_written(r.m.session, i, c.data.len() as u64),
            ..r.m
        },
        disk: if f.kept {
            r.disk
        } else {
            Disk {
                files: files.insert(
                    f.dest,
                    written_at(files[f.dest], (c.offset as nat, c.data)),
                ),
                ..r.disk
            }
        },
        came: r.came.insert(g),
        ..r
    })
}

/// What happens: something on the control connection, or a chunk comes.
pub enum RecvTurn {
    Step(RecvEvent),
    Chunk { g: int, i: int },
}

/// One turn of the receiving of a transfer.
pub open spec fn any_turn(
    r: RecvRun,
    t: RecvTurn,
    r2: RecvRun,
    stream: Seq<u8>,
    chunks: Seq<Chunk>,
) -> bool {
    match t {
        RecvTurn::Step(ev) => recv_turn(r, ev, r2, stream),
        RecvTurn::Chunk { g, i } => chunk_turn(r, g, i, r2, chunks),
    }
}

/// The receiving of a transfer, turn by turn.
pub open spec fn is_recv_run(
    runs: Seq<RecvRun>,
    turns: Seq<RecvTurn>,
    overwrite: bool,
    disk: Disk,
    stream: Seq<u8>,
    chunks: Seq<Chunk>,
) -> bool {
    &&& runs.len() == turns.len() + 1
    &&& recv_begun(runs[0], overwrite, disk)
    &&& forall|i: int|
        0 <= i < turns.len() ==> #[trigger] any_turn(runs[i], turns[i], runs[i + 1], stream, chunks)
}

// ---------------------------------------------------------------------------
// The control stream
// ---------------------------------------------------------------------------

/// What a sender puts on the control stream.
pub open spec fn whole_stream(
    h: Handshake,
    items: Seq<(EntryView, Seq<u8>)>,
    hashes: Seq<(u64, u64)>,
) -> Seq<u8> {
    handshake_bytes(h) + items_bytes(items) + end_bytes(hashes)
}

/// Whether a receiver takes an entry with the bytes behind its header.
pub open spec fn takeable(item: (EntryView, Seq<u8>)) -> bool {
    let (e, payload) = item;
    &&& good_item(item)
    &&& destination(e.rel) is Ok
    &&& e.kind is Inline ==> (compressed(e.flags) ==> unpackable(payload)) && arrived(
        e,
        payload,
    ) is Some
}

/// How many mismatches entries count for.
pub open spec fn item_faults(items: Seq<(EntryView, Seq<u8>)>, checksum: bool) -> nat
    decreases items.len(),
{
    if items.len() == 0 {
        0
    } else {
        let (e, payload) = items.last();
        item_faults(items.drop_last(), checksum) + if e.kind is Inline {
            let c = arrived(e, payload)->0;
            faults(e, c.len(), content_hash(c), checksum)
        } else {
            0
        }
    }
}

/// How many mismatches the first `n` sharded files count for: those whose hash is
/// checked and is not the one that was named.
pub open spec fn hash_faults(s: RecvState, hashes: Map<u64, u64>, disk: Disk, n: nat) -> nat
    decreases n,
{
    if n == 0 {
        0
    } else {
        let i = n - 1;
        let h = to_verify(s, hashes, i);
        hash_faults(s, hashes, disk, (n - 1) as nat) + if h is Some && digest_of(
            disk,
            s.shards[i].dest,
        ) != h {
            1nat
        } else {
            0nat
        }
    }
}

/// Where an entry starts on the control stream.
pub open spec fn item_start(items: Seq<(EntryView, Seq<u8>)>, k: int) -> int {
    HANDSHAKE_LEN + items_bytes(items.take(k)).len()
}

/// What holds of the receiving of a transfer at every turn.
pub closed spec fn recv_holds(
    r: RecvRun,
    overwrite: bool,
    h: Handshake,
    items: Seq<(EntryView, Seq<u8>)>,
    hashes: Seq<(u64, u64)>,
) -> bool {
    let m = r.m;
    let s = m.session;
    let k = s.idx as int;
    let at = item_start(items, k);
    let (e, payload) = items[k];
    let head = entry_bytes(e);
    let before_checks = s.mismatches == item_faults(items.take(k), s.checksum);
    let map = hash_map(hashes);
    &&& m.overwrite == overwrite
    &&& m.phase !is Handshake ==> {
        &&& s.checksum == (h.flags & H_CHECKSUM != 0)
        &&& s.overwrite == (overwrite || h.flags & H_OVERWRITE != 0)
        &&& s.shards.len() <= k <= items.len()
    }
    &&& match m.phase {
        PhaseView::Handshake => {
            &&& s.shards.len() == 0
            &&& m.got.len() < HANDSHAKE_LEN
            &&& m.got == handshake_bytes(h).take(m.got.len() as int)
            &&& r.read == m.got.len()
            &&& r.a matches RecvAction::Read(x) && x > 0 && m.got.len() + x <= HANDSHAKE_LEN
        },
        PhaseView::Verdict => {
            &&& before_checks
            &&& k == 0
            &&& s.shards.len() == 0
            &&& m.got.len() == 0
            &&& r.read == at
            &&& r.a is Ask
        },
        PhaseView::Header => {
            &&& before_checks
            &&& r.read == at + m.got.len()
            &&& match r.a {
                RecvAction::Read(x) => if k < items.len() {
                    &&& m.got.len() < head.len()
                    &&& m.got == head.take(m.got.len() as int)
                    &&& x > 0
                    &&& m.got.len() + x <= head.len()
                } else {
                    m.got.len() == 0 && x == 1
                },
                RecvAction::Begin(_) => m.got.len() == 0,
                RecvAction::MakeDir { .. } => m.got.len() == 0,
                RecvAction::Write(_) => m.got.len() == 0,
                _ => false,
            }
        },
        PhaseView::Payload(x) => {
            &&& before_checks
            &&& k < items.len()
            &&& x == e
            &&& e.kind is Inline
            &&& r.a == RecvAction::Read(payload.len() as usize)
            &&& r.read == at + head.len()
        },
        PhaseView::Look(x) => {
            &&& before_checks
            &&& k < items.len()
            &&& x == e
            &&& e.kind is Sharded
            &&& r.a matches RecvAction::Look(dest) && texts(dest@) == destination(e.rel)->Ok_0
            &&& r.read == at + head.len()
        },
        PhaseView::Make(x) => {
            &&& before_checks
            &&& k < items.len()
            &&& x == e
            &&& e.kind is Sharded
            &&& r.a is Make
            &&& r.read == at + head.len()
        },
        PhaseView::HashCount => {
            &&& before_checks
            &&& k == items.len()
            &&& r.a == RecvAction::Read(8)
            &&& r.read == at + 1
        },
        PhaseView::Hashes => {
            let d = hashes.len() - m.left;
            &&& before_checks
            &&& k == items.len()
            &&& 0 < m.left <= hashes.len()
            &&& m.hashes == hash_map(hashes.take(d))
            &&& r.a == RecvAction::Read(16)
            &&& r.read == at + 9 + 16 * d
        },
        PhaseView::Drain => before_checks && k == items.len() && m.hashes == map && r.a is Wait,
        PhaseView::Join => before_checks && k == items.len() && m.hashes == map && r.a is Join,
        PhaseView::Verify(i) => {
            &&& k == items.len()
            &&& m.hashes == map
            &&& i < s.shards.len()
            &&& to_verify(s, map, i as int) is Some
            &&& r.a == RecvAction::Hash(i)
            &&& s.mismatches == item_faults(items, s.checksum) + hash_faults(
                s,
                map,
                r.disk,
                i as nat,
            )
        },
        PhaseView::Over => {
            &&& k == items.len()
            &&& m.hashes == map
            &&& r.a matches RecvAction::Finish(ack) && ack@ == ack_bytes(s.mismatches)
            &&& s.mismatches == item_faults(items, s.checksum) + hash_faults(
                s,
                map,
                r.disk,
                s.shards.len(),
            )
        },
    }
}

/// What a turn on the control connection does to the disk and to the sharded
/// files.
pub open spec fn effect(r: RecvRun, r2: RecvRun, items: Seq<(EntryView, Seq<u8>)>) -> bool {
    let s = r.m.session;
    let t = r2.m.session;
    let k = s.idx as int;
    let (e, payload) = items[k];
    let dest = destination(e.rel)->Ok_0;
    let files = r.disk.files;
    let nothing = t.shards == s.shards && t.idx == s.idx && r2.disk == r.disk;
    &&& r2.came == r.came
    &&& match r.m.phase {
        PhaseView::Handshake => {
            &&& t.shards.len() == 0
            &&& r2.disk == r.disk
            &&& r2.m.phase is Handshake || (r2.m.phase is Verdict && t.idx == 0)
        },
        PhaseView::Verdict => nothing && r2.m.phase is Header,
        PhaseView::Header => {
            ||| nothing && (r2.m.phase is Header || r2.m.phase is Payload || r2.m.phase is Look
                || (r2.m.phase is HashCount && k == items.len()))
            ||| {
                &&& k < items.len()
                &&& e.kind is Dir
                &&& r2.m.phase is Header
                &&& t.idx == k + 1
                &&& t.shards == s.shards
                &&& r2.disk == (Disk { dirs: r.disk.dirs.insert(dest), ..r.disk })
            }
        },
        PhaseView::Payload(_) => {
            &&& k < items.len()
            &&& e.kind is Inline
            &&& r2.m.phase is Header
            &&& t.idx == k + 1
            &&& t.shards == s.shards
            &&& r2.disk == if t.overwrite || !files.dom().contains(dest) {
                Disk { files: files.insert(dest, arrived(e, payload)->0), ..r.disk }
            } else {
                r.disk
            }
        },
        PhaseView::Look(_) => {
            &&& k < items.len()
            &&& e.kind is Sharded
            &&& s.overwrite || !files.dom().contains(dest) ==> {
                &&& r2.m.phase is Make
                &&& t == s
                &&& r2.disk == (Disk {
                    files: files.insert(dest, Seq::new(e.size as nat, |i: int| 0u8)),
                    ..r.disk
                })
            }
        },
        PhaseView::Make(_) => {
            &&& k < items.len()
            &&& e.kind is Sharded
            &&& r2.m.phase is Header
            &&& t == after_shard_placed(s, dest, e.size, e.mtime, false)
            &&& r2.disk == r.disk
        },
        PhaseView::Over => false,
        _ => {
            &&& k == items.len()
            &&& nothing
            &&& r2.m.phase is Hashes || r2.m.phase is Drain || r2.m.phase is Join
                || r2.m.phase is Verify || r2.m.phase is Over
            &&& r2.m.phase is Join ==> all_arrived(s)
            &&& r2.m.phase is Verify || r2.m.phase is Over ==> r.m.phase is Join
                || r.m.phase is Verify
        },
    }
}

/// Whether entries and hashes can be counted, and each entry is taken.
pub open spec fn countable(items: Seq<(EntryView, Seq<u8>)>, hashes: Seq<(u64, u64)>) -> bool {
    &&& items.len() <= 0x1000_0000_0000_0000
    &&& items.len() <= usize::MAX
    &&& hashes.len() <= u64::MAX
    &&& forall|i: int| 0 <= i < items.len() ==> #[trigger] takeable(items[i])
}

proof fn lemma_items_at(items: Seq<(EntryView, Seq<u8>)>, k: int)
    requires
        0 <= k < items.len(),
    ensures
        ({
            let all = items_bytes(items);
            let at = items_bytes(items.take(k)).len() as int;
            let one = item_bytes(items[k]);
            &&& at + one.len() <= all.len()
            &&& all.subrange(at, at + one.len()) == one
            &&& items_bytes(items.take(k + 1)).len() == at + one.len()
        }),
    decreases items.len(),
{
    let all = items_bytes(items);
    let at = items_bytes(items.take(k)).len() as int;
    let one = item_bytes(items[k]);
    let before = items.drop_last();
    assert(items =~= before.push(items.last()));
    lemma_items_push(before, items.last());
    lemma_items_push(items.take(k), items[k]);
    assert(items.take(k + 1) =~= items.take(k).push(items[k]));
    if k == items.len() - 1 {
        assert(items.take(k) =~= before);
        assert(all.subrange(at, at + one.len()) =~= one);
    } else {
        lemma_items_at(before, k);
        assert(before.take(k) =~= items.take(k));
        assert(all.subrange(at, at + one.len()) =~= items_bytes(before).subrange(
            at,
            at + one.len(),
        ));
    }
}

/// What stands on the control stream where an entry starts.
proof fn lemma_stream_at(
    h: Handshake,
    items: Seq<(EntryView, Seq<u8>)>,
    hashes: Seq<(u64, u64)>,
    k: int,
)
    requires
        0 <= k < items.len(),
    ensures
        ({
            let stream = whole_stream(h, items, hashes);
            let at = item_start(items, k);
            let (e, payload) = items[k];
            let mid = at + entry_bytes(e).len();
            &&& HANDSHAKE_LEN <= at
            &&& mid + payload.len() <= stream.len()
            &&& stream.subrange(at, mid) == entry_bytes(e)
            &&& stream.subrange(mid, mid + payload.len()) == payload
            &&& item_start(items, k + 1) == mid + payload.len()
        }),
{
    let stream = whole_stream(h, items, hashes);
    let at = item_start(items, k);
    let (e, payload) = items[k];
    let mid = at + entry_bytes(e).len();
    lemma_items_at(items, k);
    let one = item_bytes(items[k]);
    assert(stream.subrange(at, at + one.len()) =~= items_bytes(items).subrange(
        at - HANDSHAKE_LEN,
        at - HANDSHAKE_LEN + one.len(),
    ));
    assert(stream.subrange(at, mid) =~= one.take(entry_bytes(e).len() as int));
    assert(one.take(entry_bytes(e).len() as int) =~= entry_bytes(e));
    assert(stream.subrange(mid, mid + payload.len()) =~= one.skip(entry_bytes(e).len() as int));
    assert(one.skip(entry_bytes(e).len() as int) =~= payload);
}

/// What stands on the control stream behind the entries.
proof fn lemma_stream_end(
    h: Handshake,
    items: Seq<(EntryView, Seq<u8>)>,
    hashes: Seq<(u64, u64)>,
)
    requires
        hashes.len() <= u64::MAX,
    ensures
        ({
            let stream = whole_stream(h, items, hashes);
            let at = item_start(items, items.len() as int);
            &&& stream.len() == at + 9 + 16 * hashes.len()
            &&& entry_step(stream.subrange(at, at + 1)) == EntryStepView::End
            &&& field(stream.subrange(at + 1, at + 9), 0, 8) == hashes.len()
            &&& forall|d: int|
                #![trigger hashes[d]]
                0 <= d < hashes.len() ==> {
                    let b = stream.subrange(at + 9 + 16 * d, at + 9 + 16 * d + 16);
                    field(b, 0, 8) == hashes[d].0 && field(b, 8, 8) == hashes[d].1
                }
        }),
{
    let stream = whole_stream(h, items, hashes);
    let at = item_start(items, items.len() as int);
    let list = hash_list_bytes(hashes);
    assert(items.take(items.len() as int) =~= items);
    lemma_pow256();
    let none: Seq<u8> = Seq::empty();
    lemma_hash_list_len(hashes);
    let first = stream.subrange(at, at + 1);
    assert(first =~= le_bytes(ENTRY_END as nat, 1));
    assert(first.subrange(0, 1) =~= le_bytes(ENTRY_END as nat, 1));
    lemma_field(first, 0, 1, ENTRY_END as nat);
    let count = stream.subrange(at + 1, at + 9);
    assert(count =~= le_bytes(hashes.len(), 8));
    assert(count.subrange(0, 8) =~= le_bytes(hashes.len(), 8));
    lemma_field(count, 0, 8, hashes.len());
    assert forall|d: int| #![trigger hashes[d]] 0 <= d < hashes.len() implies {
        let b = stream.subrange(at + 9 + 16 * d, at + 9 + 16 * d + 16);
        field(b, 0, 8) == hashes[d].0 && field(b, 8, 8) == hashes[d].1
    } by {
        let b = stream.subrange(at + 9 + 16 * d, at + 9 + 16 * d + 16);
        law_hashes_read_back(hashes, d, none);
        assert(list + none =~= list);
        assert(b =~= list.subrange(16 * d, 16 * d + 16));
        assert(b.subrange(0, 8) =~= list.subrange(16 * d, 16 * d + 8));
        assert(b.subrange(8, 16) =~= list.subrange(16 * d + 8, 16 * d + 16));
    }
}

proof fn lemma_few_faults(items: Seq<(EntryView, Seq<u8>)>, checksum: bool)
    ensures
        item_faults(items, checksum) <= 2 * items.len(),
    decreases items.len(),
{
    if items.len() > 0 {
        lemma_few_faults(items.drop_last(), checksum);
    }
}

proof fn lemma_few_hash_faults(s: RecvState, hashes: Map<u64, u64>, disk: Disk, n: nat)
    ensures
        hash_faults(s, hashes, disk, n) <= n,
    decreases n,
{
    if n > 0 {
        lemma_few_hash_faults(s, hashes, disk, (n - 1) as nat);
    }
}

proof fn lemma_same_hash_faults(
    s: RecvState,
    t: RecvState,
    hashes: Map<u64, u64>,
    disk: Disk,
    n: nat,
)
    requires
        s.checksum == t.checksum,
        s.shards == t.shards,
    ensures
        hash_faults(s, hashes, disk, n) == hash_faults(t, hashes, disk, n),
    decreases n,
{
    if n > 0 {
        lemma_same_hash_faults(s, t, hashes, disk, (n - 1) as nat);
    }
}

/// Files whose hash is not checked count for nothing.
proof fn lemma_next_check(s: RecvState, hashes: Map<u64, u64>, disk: Disk, from: nat)
    requires
        from <= s.shards.len(),
    ensures
        match next_check(s, hashes, from) {
            Some(i) => from <= i < s.shards.len() && to_verify(s, hashes, i as int) is Some
                && hash_faults(s, hashes, disk, i) == hash_faults(s, hashes, disk, from),
            None => hash_faults(s, hashes, disk, s.shards.len()) == hash_faults(
                s,
                hashes,
                disk,
                from,
            ),
        },
    decreases s.shards.len() - from,
{
    if from < s.shards.len() && to_verify(s, hashes, from as int) is None {
        lemma_next_check(s, hashes, disk, from + 1);
        assert(hash_faults(s, hashes, disk, from + 1) == hash_faults(s, hashes, disk, from));
    }
}

proof fn lemma_next_item(items: Seq<(EntryView, Seq<u8>)>, k: int, checksum: bool)
    requires
        0 <= k < items.len(),
    ensures
        ({
            let (e, payload) = items[k];
            item_faults(items.take(k + 1), checksum) == item_faults(items.take(k), checksum)
                + if e.kind is Inline {
                let c = arrived(e, payload)->0;
                faults(e, c.len(), content_hash(c), checksum)
            } else {
                0
            }
        }),
{
    assert(items.take(k + 1).drop_last() =~= items.take(k));
    assert(items.take(k + 1).last() == items[k]);
}

#[verifier::rlimit(60)]
#[verifier::spinoff_prover]
proof fn lemma_header_turn(
    r: RecvRun,
    ev: RecvEvent,
    r2: RecvRun,
    overwrite: bool,
    h: Handshake,
    items: Seq<(EntryView, Seq<u8>)>,
    hashes: Seq<(u64, u64)>,
)
    requires
        countable(items, hashes),
        recv_holds(r, overwrite, h, items, hashes),
        recv_turn(r, ev, r2, whole_stream(h, items, hashes)),
        r.m.phase is Header,
    ensures
        recv_holds(r2, overwrite, h, items, hashes),
        effect(r, r2, items),
{
    let stream = whole_stream(h, items, hashes);
    let s = r.m.session;
    let k = s.idx as int;
    let at = item_start(items, k);
    let (e, payload) = items[k];
    let head = entry_bytes(e);
    let none: Seq<u8> = Seq::empty();
    lemma_few_faults(items.take(k), s.checksum);
    assert(s.has_room());
    if ev is Done {
        if k < items.len() {
            assert(takeable(items[k]));
            law_entry_is_not_read_past(e, 0);
            assert(r2.m.got =~= head.take(0));
        }
    } else {
        let x = r.a->Read_0;
        let b = ev->Bytes_0@;
        let got = r.m.got + b;
        if k < items.len() {
            assert(takeable(items[k]));
            lemma_stream_at(h, items, hashes, k);
            lemma_next_item(items, k, s.checksum);
            assert(got =~= head.take(got.len() as int)) by {
                assert(stream.subrange(at, at + head.len()) == head);
                assert forall|i: int| 0 <= i < got.len() implies got[i] == head[i] by {
                    assert(head[i] == stream[at + i]);
                }
            }
            if got.len() < head.len() {
                law_entry_is_not_read_past(e, got.len() as int);
            } else {
                assert(head.take(got.len() as int) =~= head);
                assert(head + none =~= head);
                law_entry_read_back(e, none);
                assert(entry_step(got) == (EntryStepView::Header { entry: e, used: head.len() }));
            }
        } else {
            lemma_stream_end(h, items, hashes);
            assert(got =~= stream.subrange(at, at + 1));
        }
    }
}

proof fn lemma_check(
    m: ReceivingView,
    from: nat,
    r2: RecvRun,
    overwrite: bool,
    h: Handshake,
    items: Seq<(EntryView, Seq<u8>)>,
    hashes: Seq<(u64, u64)>,
)
    requires
        check_acts(m, from, r2.m, r2.a),
        from <= m.session.shards.len(),
        m.overwrite == overwrite,
        m.session.checksum == (h.flags & H_CHECKSUM != 0),
        m.session.overwrite == (overwrite || h.flags & H_OVERWRITE != 0),
        m.session.idx == items.len(),
        m.hashes == hash_map(hashes),
        m.session.shards.len() <= items.len() <= usize::MAX,
        m.session.mismatches == item_faults(items, m.session.checksum) + hash_faults(
            m.session,
            m.hashes,
            r2.disk,
            from,
        ),
    ensures
        recv_holds(r2, overwrite, h, items, hashes),
{
    lemma_next_check(m.session, m.hashes, r2.disk, from);
}

#[verifier::rlimit(60)]
#[verifier::spinoff_prover]
proof fn lemma_handshake_turn(
    r: RecvRun,
    ev: RecvEvent,
    r2: RecvRun,
    overwrite: bool,
    h: Handshake,
    items: Seq<(EntryView, Seq<u8>)>,
    hashes: Seq<(u64, u64)>,
)
    requires
        countable(items, hashes),
        recv_holds(r, overwrite, h, items, hashes),
        recv_turn(r, ev, r2, whole_stream(h, items, hashes)),
        r.m.phase is Handshake,
    ensures
        recv_holds(r2, overwrite, h, items, hashes),
        effect(r, r2, items),
{
    let m = r.m;
    let all = handshake_bytes(h);
    let none: Seq<u8> = Seq::empty();
    let got = m.got + ev->Bytes_0@;
    assert(all.len() == HANDSHAKE_LEN);
    assert(got =~= all.take(got.len() as int));
    if got.len() < HANDSHAKE_LEN {
        law_handshake_is_not_read_past(h, got.len() as int);
    } else {
        assert(got =~= all + none);
        law_handshake_read_back(h, none);
        assert(items.take(0) =~= Seq::empty());
    }
}

proof fn lemma_verdict_turn(
    r: RecvRun,
    ev: RecvEvent,
    r2: RecvRun,
    overwrite: bool,
    h: Handshake,
    items: Seq<(EntryView, Seq<u8>)>,
    hashes: Seq<(u64, u64)>,
)
    requires
        recv_holds(r, overwrite, h, items, hashes),
        recv_turn(r, ev, r2, whole_stream(h, items, hashes)),
        r.m.phase is Verdict,
    ensures
        recv_holds(r2, overwrite, h, items, hashes),
        effect(r, r2, items),
{
}

#[verifier::rlimit(60)]
#[verifier::spinoff_prover]
proof fn lemma_payload_turn(
    r: RecvRun,
    ev: RecvEvent,
    r2: RecvRun,
    overwrite: bool,
    h: Handshake,
    items: Seq<(EntryView, Seq<u8>)>,
    hashes: Seq<(u64, u64)>,
)
    requires
        countable(items, hashes),
        recv_holds(r, overwrite, h, items, hashes),
        recv_turn(r, ev, r2, whole_stream(h, items, hashes)),
        r.m.phase is Payload,
    ensures
        recv_holds(r2, overwrite, h, items, hashes),
        effect(r, r2, items),
{
    let m = r.m;
    let s = m.session;
    let k = s.idx as int;
    assert(takeable(items[k]));
    lemma_stream_at(h, items, hashes, k);
    lemma_next_item(items, k, s.checksum);
    lemma_few_faults(items.take(k), s.checksum);
}

#[verifier::rlimit(60)]
#[verifier::spinoff_prover]
proof fn lemma_place_turn(
    r: RecvRun,
    ev: RecvEvent,
    r2: RecvRun,
    overwrite: bool,
    h: Handshake,
    items: Seq<(EntryView, Seq<u8>)>,
    hashes: Seq<(u64, u64)>,
)
    requires
        countable(items, hashes),
        recv_holds(r, overwrite, h, items, hashes),
        recv_turn(r, ev, r2, whole_stream(h, items, hashes)),
        r.m.phase is Look || r.m.phase is Make,
    ensures
        recv_holds(r2, overwrite, h, items, hashes),
        effect(r, r2, items),
{
    let m = r.m;
    let s = m.session;
    let k = s.idx as int;
    assert(takeable(items[k]));
    lemma_stream_at(h, items, hashes, k);
    lemma_next_item(items, k, s.checksum);
    if r2.m.phase is Header {
        lemma_after_place(r2, items);
    }
}

#[verifier::rlimit(60)]
#[verifier::spinoff_prover]
proof fn lemma_hashes_turn(
    r: RecvRun,
    ev: RecvEvent,
    r2: RecvRun,
    overwrite: bool,
    h: Handshake,
    items: Seq<(EntryView, Seq<u8>)>,
    hashes: Seq<(u64, u64)>,
)
    requires
        countable(items, hashes),
        recv_holds(r, overwrite, h, items, hashes),
        recv_turn(r, ev, r2, whole_stream(h, items, hashes)),
        r.m.phase is HashCount || r.m.phase is Hashes,
    ensures
        recv_holds(r2, overwrite, h, items, hashes),
        effect(r, r2, items),
{
    let m = r.m;
    lemma_stream_end(h, items, hashes);
    assert(hashes.take(0) =~= Seq::empty());
    if r.m.phase is HashCount {
        if hashes.len() == 0 {
            assert(hashes =~= Seq::empty());
        }
    } else {
        let d = hashes.len() - m.left;
        let pair = hashes[d];
        assert(hashes.take(d + 1).drop_last() =~= hashes.take(d));
        assert(hashes.take(d + 1).last() == pair);
        if m.left == 1 {
            assert(hashes.take(d + 1) =~= hashes);
        }
    }
}

#[verifier::rlimit(60)]
#[verifier::spinoff_prover]
proof fn lemma_last_turn(
    r: RecvRun,
    ev: RecvEvent,
    r2: RecvRun,
    overwrite: bool,
    h: Handshake,
    items: Seq<(EntryView, Seq<u8>)>,
    hashes: Seq<(u64, u64)>,
)
    requires
        countable(items, hashes),
        recv_holds(r, overwrite, h, items, hashes),
        recv_turn(r, ev, r2, whole_stream(h, items, hashes)),
        r.m.phase is Drain || r.m.phase is Join || r.m.phase is Verify || r.m.phase is Over,
    ensures
        recv_holds(r2, overwrite, h, items, hashes),
        effect(r, r2, items),
{
    let m = r.m;
    let s = m.session;
    let k = s.idx as int;
    if m.phase is Join {
        assert(items.take(k) =~= items);
        lemma_check(m, 0, r2, overwrite, h, items, hashes);
    } else if m.phase is Verify {
        let i = m.phase->Verify_0;
        lemma_few_faults(items, s.checksum);
        lemma_few_hash_faults(s, m.hashes, r.disk, i as nat);
        let expected = to_verify(s, m.hashes, i as int)->0;
        let t = after_verify(s, expected, ev->Digest_0);
        let m1 = ReceivingView { session: t, ..m };
        lemma_same_hash_faults(s, t, m.hashes, r.disk, (i + 1) as nat);
        lemma_check(m1, (i + 1) as nat, r2, overwrite, h, items, hashes);
    }
}

/// A turn on the control connection.
pub proof fn lemma_recv_turn(
    r: RecvRun,
    ev: RecvEvent,
    r2: RecvRun,
    overwrite: bool,
    h: Handshake,
    items: Seq<(EntryView, Seq<u8>)>,
    hashes: Seq<(u64, u64)>,
)
    requires
        countable(items, hashes),
        recv_holds(r, overwrite, h, items, hashes),
        recv_turn(r, ev, r2, whole_stream(h, items, hashes)),
    ensures
        recv_holds(r2, overwrite, h, items, hashes),
        effect(r, r2, items),
{
    match r.m.phase {
        PhaseView::Handshake => lemma_handshake_turn(r, ev, r2, overwrite, h, items, hashes),
        PhaseView::Verdict => lemma_verdict_turn(r, ev, r2, overwrite, h, items, hashes),
        PhaseView::Header => lemma_header_turn(r, ev, r2, overwrite, h, items, hashes),
        PhaseView::Payload(_) => lemma_payload_turn(r, ev, r2, overwrite, h, items, hashes),
        PhaseView::Look(_) => lemma_place_turn(r, ev, r2, overwrite, h, items, hashes),
        PhaseView::Make(_) => lemma_place_turn(r, ev, r2, overwrite, h, items, hashes),
        PhaseView::HashCount => lemma_hashes_turn(r, ev, r2, overwrite, h, items, hashes),
        PhaseView::Hashes => lemma_hashes_turn(r, ev, r2, overwrite, h, items, hashes),
        _ => lemma_last_turn(r, ev, r2, overwrite, h, items, hashes),
    }
}

/// After a sharded file was placed, the next header is read from its start.
proof fn lemma_after_place(r2: RecvRun, items: Seq<(EntryView, Seq<u8>)>)
    requires
        r2.m.got.len() == 0,
        r2.a == RecvAction::Read(1),
        forall|i: int| 0 <= i < items.len() ==> #[trigger] takeable(items[i]),
    ensures
        r2.m.session.idx < items.len() ==> {
            let head = entry_bytes(items[r2.m.session.idx as int].0);
            head.len() >= 1 && r2.m.got == head.take(0)
        },
{
    let k = r2.m.session.idx as int;
    if k < items.len() {
        assert(takeable(items[k]));
        law_entry_is_not_read_past(items[k].0, 0);
        assert(r2.m.got =~= entry_bytes(items[k].0).take(0));
    }
}

/// Where the receiving of a transfer stands, in short.
pub proof fn lemma_recv_session(
    r: RecvRun,
    overwrite: bool,
    h: Handshake,
    items: Seq<(EntryView, Seq<u8>)>,
    hashes: Seq<(u64, u64)>,
)
    requires
        recv_holds(r, overwrite, h, items, hashes),
    ensures
        r.m.phase !is Handshake ==> {
            &&& r.m.session.overwrite == (overwrite || h.flags & H_OVERWRITE != 0)
            &&& r.m.session.idx <= items.len()
        },
        r.a is Finish ==> r.m.phase is Over,
{
}

/// What holds of the receiving of a transfer holds at every turn of it.
pub proof fn lemma_recv_run(
    runs: Seq<RecvRun>,
    turns: Seq<RecvTurn>,
    overwrite: bool,
    disk: Disk,
    h: Handshake,
    items: Seq<(EntryView, Seq<u8>)>,
    hashes: Seq<(u64, u64)>,
    chunks: Seq<Chunk>,
    n: int,
)
    requires
        countable(items, hashes),
        is_recv_run(runs, turns, overwrite, disk, whole_stream(h, items, hashes), chunks),
        0 <= n < runs.len(),
    ensures
        recv_holds(runs[n], overwrite, h, items, hashes),
    decreases n,
{
    let stream = whole_stream(h, items, hashes);
    if n == 0 {
        assert(runs[0].m.got =~= handshake_bytes(h).take(0));
    } else {
        lemma_recv_run(runs, turns, overwrite, disk, h, items, hashes, chunks, n - 1);
        assert(any_turn(runs[n - 1], turns[n - 1], runs[n - 1 + 1], stream, chunks));
        match turns[n - 1] {
            RecvTurn::Step(ev) => lemma_recv_turn(
                runs[n - 1],
                ev,
                runs[n],
                overwrite,
                h,
                items,
                hashes,
            ),
            RecvTurn::Chunk { g, i } => lemma_chunk_turn(
                runs[n - 1],
                g,
                i,
                runs[n],
                overwrite,
                h,
                items,
                hashes,
                chunks,
            ),
        }
    }
}

/// A chunk that comes changes nothing of where the control connection stands.
pub proof fn lemma_chunk_turn(
    r: RecvRun,
    g: int,
    i: int,
    r2: RecvRun,
    overwrite: bool,
    h: Handshake,
    items: Seq<(EntryView, Seq<u8>)>,
    hashes: Seq<(u64, u64)>,
    chunks: Seq<Chunk>,
)
    requires
        recv_holds(r, overwrite, h, items, hashes),
        chunk_turn(r, g, i, r2, chunks),
    ensures
        recv_holds(r2, overwrite, h, items, hashes),
{
}

/// A receiver whose sender keeps to the protocol never fails, whenever the chunks
/// come, and its last answer counts every mismatch: those of the files that came
/// on the control stream, and one for each sharded file whose hash was named, is
/// checked and is not that of the file on disk.
pub proof fn law_every_mismatch_is_counted(
    runs: Seq<RecvRun>,
    turns: Seq<RecvTurn>,
    overwrite: bool,
    disk: Disk,
    h: Handshake,
    items: Seq<(EntryView, Seq<u8>)>,
    hashes: Seq<(u64, u64)>,
    chunks: Seq<Chunk>,
    n: int,
)
    requires
        countable(items, hashes),
        is_recv_run(runs, turns, overwrite, disk, whole_stream(h, items, hashes), chunks),
        0 <= n < runs.len(),
    ensures
        !(runs[n].a is Fail) && !(runs[n].a is Refuse),
        runs[n].a matches RecvAction::Finish(ack) ==> {
            let s = runs[n].m.session;
            let count = item_faults(items, h.flags & H_CHECKSUM != 0) + hash_faults(
                s,
                hash_map(hashes),
                runs[n].disk,
                s.shards.len(),
            );
            &&& count == s.mismatches
            &&& ack@ == ack_bytes(count as u64)
        },
{
    lemma_recv_run(runs, turns, overwrite, disk, h, items, hashes, chunks, n);
}

/// A receiver whose sender keeps to the protocol never waits for bytes that are
/// not sent: what it reads next is all on the control stream.
pub proof fn law_no_more_is_read_than_sent(
    runs: Seq<RecvRun>,
    turns: Seq<RecvTurn>,
    overwrite: bool,
    disk: Disk,
    h: Handshake,
    items: Seq<(EntryView, Seq<u8>)>,
    hashes: Seq<(u64, u64)>,
    chunks: Seq<Chunk>,
    n: int,
)
    requires
        countable(items, hashes),
        is_recv_run(runs, turns, overwrite, disk, whole_stream(h, items, hashes), chunks),
        0 <= n < runs.len(),
    ensures
        runs[n].a matches RecvAction::Read(x) ==> runs[n].read + x <= whole_stream(
            h,
            items,
            hashes,
        ).len(),
{
    let r = runs[n];
    let k = r.m.session.idx as int;
    lemma_recv_run(runs, turns, overwrite, disk, h, items, hashes, chunks, n);
    lemma_stream_end(h, items, hashes);
    if r.m.phase !is Handshake && k < items.len() {
        assert(takeable(items[k]));
        lemma_stream_at(h, items, hashes, k);
    }
}

} // verus!

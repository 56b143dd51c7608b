//! What a transfer promises from end to end: what the receiver has is what the
//! sender had.

use vstd::prelude::*;
use vstd::utf8::*;

use crate::entry::{
    compressed,
    entry_bytes,
    entry_step,
    law_end_is_seen,
    law_entry_read_back,
    sendable,
    EntryKind,
    EntryStepView,
    EntryView,
};
use crate::jobs::JobView;
use crate::messages::{
    chunk_bytes,
    chunk_step,
    end_bytes,
    law_chunk_read_back,
    ChunkStep,
    Handshake,
    CHUNK_HEAD_LEN,
};
use crate::outside::{content_hash, lemma_short_is_unpackable, unpackable};
use crate::path::destination;
use crate::protocol::{CHUNK_SIZE, MAX_INLINE, MAX_PATH_LEN};
use crate::receiver::{
    after_entry,
    after_file,
    after_shard_placed,
    after_verify,
    arrived,
    faults,
    hash_map,
    recv_start,
    to_verify,
    ArrivingView,
    RecvState,
};
use crate::sender::{
    after_chunks,
    after_dir,
    after_inline,
    after_shard,
    dir_entry,
    flag_bits,
    item_bytes,
    job_form,
    joined_reads,
    law_chunks_are_hashed_in_order,
    packs,
    send_start,
    sent_inline,
    shard_entry,
    shard_hash,
    Form,
    SendState,
};

verus! {

// ---------------------------------------------------------------------------
// The control stream
// ---------------------------------------------------------------------------

/// How many bytes follow a header on the control stream.
pub open spec fn payload_len(e: EntryView) -> nat {
    match e.kind {
        EntryKind::Inline { wire_len, .. } => wire_len as nat,
        _ => 0,
    }
}

/// Whether an entry, with the bytes behind its header, is one that a receiver
/// takes.
pub open spec fn good_item(item: (EntryView, Seq<u8>)) -> bool {
    sendable(item.0) && item.1.len() == payload_len(item.0)
}

/// Entries on the wire, one behind the other.
pub open spec fn items_bytes(items: Seq<(EntryView, Seq<u8>)>) -> Seq<u8>
    decreases items.len(),
{
    if items.len() == 0 {
        Seq::empty()
    } else {
        item_bytes(items[0]) + items_bytes(items.drop_first())
    }
}

/// The entries that a receiver reads off the control stream, and what is left
/// from the byte on that ends them; `None` where the bytes end too soon or hold
/// a fault.
#[verifier::opaque]
pub open spec fn read_items(buf: Seq<u8>) -> Option<(Seq<(EntryView, Seq<u8>)>, Seq<u8>)>
    decreases buf.len(),
{
    match entry_step(buf) {
        EntryStepView::End => Some((Seq::empty(), buf)),
        EntryStepView::Header { entry, used } => {
            let n = used + payload_len(entry);
            if 0 < n <= buf.len() {
                match read_items(buf.skip(n as int)) {
                    Some((items, tail)) => Some(
                        (seq![(entry, buf.subrange(used as int, n as int))] + items, tail),
                    ),
                    None => None,
                }
            } else {
                None
            }
        },
        _ => None,
    }
}

proof fn lemma_read_one(e: EntryView, payload: Seq<u8>, after: Seq<u8>)
    requires
        good_item((e, payload)),
    ensures
        read_items(item_bytes((e, payload)) + after) == match read_items(after) {
            Some((items, tail)) => Some((seq![(e, payload)] + items, tail)),
            None => None,
        },
{
    reveal(read_items);
    let head = entry_bytes(e);
    let buf = item_bytes((e, payload)) + after;
    assert(buf =~= head + (payload + after));
    law_entry_read_back(e, payload + after);
    let used = head.len();
    let n = used + payload.len();
    assert(buf.skip(n as int) =~= after);
    assert(buf.subrange(used as int, n as int) =~= payload);
    assert(used > 0);
}

proof fn lemma_read_none(hashes: Seq<(u64, u64)>, rest: Seq<u8>)
    ensures
        read_items(end_bytes(hashes) + rest) == Some(
            (Seq::<(EntryView, Seq<u8>)>::empty(), end_bytes(hashes) + rest),
        ),
{
    reveal(read_items);
    law_end_is_seen(hashes, rest);
}

/// The receiver reads off the control stream just the entries that the sender
/// put on it, each with the bytes behind its header, in the same order, and ends
/// where the sender ended.
pub proof fn law_entries_read_back(
    items: Seq<(EntryView, Seq<u8>)>,
    hashes: Seq<(u64, u64)>,
    rest: Seq<u8>,
)
    requires
        forall|i: int| 0 <= i < items.len() ==> #[trigger] good_item(items[i]),
    ensures
        read_items(items_bytes(items) + (end_bytes(hashes) + rest)) == Some(
            (items, end_bytes(hashes) + rest),
        ),
    decreases items.len(),
{
    let tail = end_bytes(hashes) + rest;
    if items.len() == 0 {
        assert(items_bytes(items) + tail =~= tail);
        lemma_read_none(hashes, rest);
        assert(items =~= Seq::empty());
    } else {
        let first = items[0];
        let others = items.drop_first();
        assert forall|i: int| 0 <= i < others.len() implies #[trigger] good_item(others[i]) by {
            assert(good_item(items[i + 1]));
        }
        law_entries_read_back(others, hashes, rest);
        assert(good_item(first));
        lemma_read_one(first.0, first.1, items_bytes(others) + tail);
        assert(items_bytes(items) + tail =~= item_bytes(first) + (items_bytes(others) + tail));
        assert(seq![first] + others =~= items);
    }
}

// ---------------------------------------------------------------------------
// Files on the control stream
// ---------------------------------------------------------------------------

/// A file that is read whole arrives as it was read, compressed or not, with
/// whatever block compression gave for it, and counts for no mismatch, checked
/// or not. It is left out where it is longer
/// than a receiver takes, or its path is.
pub proof fn law_inline_file_arrives(
    j: JobView,
    data: Seq<u8>,
    compress: bool,
    checksum: bool,
    block: Option<Seq<u8>>,
    checked: bool,
)
    requires
        data.len() <= MAX_INLINE,
        encode_utf8(j.rel).len() <= MAX_PATH_LEN,
        packs(compress, j.rel, data, block),
    ensures
        good_item(sent_inline(j, data, checksum, block)),
        ({
            let (e, payload) = sent_inline(j, data, checksum, block);
            &&& e.rel == j.rel && e.mtime == j.mtime && e.mode == j.mode
            &&& compressed(e.flags) ==> unpackable(payload)
            &&& arrived(e, payload) == Some(data)
            &&& faults(e, data.len(), content_hash(data), checked) == 0
        }),
{
    let (e, payload) = sent_inline(j, data, checksum, block);
    assert(1u8 & 1u8 == 1 && 0u8 & 1u8 == 0) by (bit_vector);
    if compressed(e.flags) {
        lemma_short_is_unpackable(payload);
    }
}

// ---------------------------------------------------------------------------
// Sharded files
// ---------------------------------------------------------------------------

/// The chunks into which a run of reads cuts a file, each with the place at
/// which it stands.
pub open spec fn pieces_of(reads: Seq<Seq<u8>>) -> Seq<(nat, Seq<u8>)>
    decreases reads.len(),
{
    if reads.len() == 0 {
        Seq::empty()
    } else {
        pieces_of(reads.drop_last()).push((joined_reads(reads.drop_last()).len(), reads.last()))
    }
}

/// A file after bytes were written at a place within it.
pub open spec fn written_at(file: Seq<u8>, piece: (nat, Seq<u8>)) -> Seq<u8> {
    Seq::new(
        file.len(),
        |b: int|
            if piece.0 <= b < piece.0 + piece.1.len() {
                piece.1[b - piece.0]
            } else {
                file[b]
            },
    )
}

/// A file after chunks were written to it, in the order in which they came.
pub open spec fn written(file: Seq<u8>, pieces: Seq<(nat, Seq<u8>)>) -> Seq<u8>
    decreases pieces.len(),
{
    if pieces.len() == 0 {
        file
    } else {
        written_at(written(file, pieces.drop_last()), pieces.last())
    }
}

/// How many bytes chunks have.
pub open spec fn pieces_len(pieces: Seq<(nat, Seq<u8>)>) -> nat
    decreases pieces.len(),
{
    if pieces.len() == 0 {
        0
    } else {
        pieces_len(pieces.drop_last()) + pieces.last().1.len()
    }
}

/// Whether a chunk is what stands at its place.
spec fn agrees(piece: (nat, Seq<u8>), data: Seq<u8>) -> bool {
    piece.0 + piece.1.len() <= data.len() && data.subrange(
        piece.0 as int,
        (piece.0 + piece.1.len()) as int,
    ) == piece.1
}

proof fn lemma_pieces(reads: Seq<Seq<u8>>)
    ensures
        pieces_of(reads).len() == reads.len(),
        pieces_len(pieces_of(reads)) == joined_reads(reads).len(),
        forall|k: int|
            0 <= k < reads.len() ==> agrees(#[trigger] pieces_of(reads)[k], joined_reads(reads)),
        forall|b: int|
            0 <= b < joined_reads(reads).len() ==> #[trigger] covered(b, pieces_of(reads)),
    decreases reads.len(),
{
    if reads.len() > 0 {
        let before = reads.drop_last();
        lemma_pieces(before);
        let all = pieces_of(reads);
        let head = joined_reads(before);
        let whole = joined_reads(reads);
        assert(all.drop_last() =~= pieces_of(before));
        assert forall|k: int| 0 <= k < reads.len() implies agrees(#[trigger] all[k], whole) by {
            if k < before.len() {
                let p = pieces_of(before)[k];
                assert(all[k] == p);
                assert(whole.subrange(p.0 as int, (p.0 + p.1.len()) as int) =~= head.subrange(
                    p.0 as int,
                    (p.0 + p.1.len()) as int,
                ));
            } else {
                assert(whole.subrange(head.len() as int, whole.len() as int) =~= reads.last());
            }
        }
        assert forall|b: int| 0 <= b < whole.len() implies #[trigger] covered(b, all) by {
            if b < head.len() {
                assert(covered(b, pieces_of(before)));
                let k = choose|k: int|
                    0 <= k < before.len() && in_piece(b, #[trigger] pieces_of(before)[k]);
                assert(all[k] == pieces_of(before)[k]);
                assert(in_piece(b, all[k]));
            } else {
                assert(in_piece(b, all[reads.len() - 1]));
            }
        }
    }
}

/// Whether a place lies within a chunk.
spec fn in_piece(b: int, piece: (nat, Seq<u8>)) -> bool {
    piece.0 <= b < piece.0 + piece.1.len()
}

/// Whether a place lies within one of the chunks.
spec fn covered(b: int, pieces: Seq<(nat, Seq<u8>)>) -> bool {
    exists|k: int| 0 <= k < pieces.len() && in_piece(b, #[trigger] pieces[k])
}

proof fn lemma_pieces_len_rearranged(a: Seq<(nat, Seq<u8>)>, b: Seq<(nat, Seq<u8>)>)
    requires
        a.to_multiset() == b.to_multiset(),
    ensures
        pieces_len(a) == pieces_len(b),
    decreases a.len(),
{
    a.to_multiset_ensures();
    b.to_multiset_ensures();
    if a.len() > 0 {
        let x = a.last();
        assert(a.contains(x));
        assert(b.to_multiset().count(x) > 0);
        let j = choose|j: int| 0 <= j < b.len() && b[j] == x;
        let a1 = a.drop_last();
        let b1 = b.remove(j);
        assert(a =~= a1.push(x));
        a1.to_multiset_ensures();
        assert(a1.to_multiset() =~= a.to_multiset().remove(x));
        assert(b1.to_multiset() =~= b.to_multiset().remove(x));
        lemma_pieces_len_rearranged(a1, b1);
        lemma_pieces_len_remove(b, j);
    }
}

proof fn lemma_pieces_len_remove(s: Seq<(nat, Seq<u8>)>, j: int)
    requires
        0 <= j < s.len(),
    ensures
        pieces_len(s) == pieces_len(s.remove(j)) + s[j].1.len(),
    decreases s.len(),
{
    if j == s.len() - 1 {
        assert(s.remove(j) =~= s.drop_last());
    } else {
        lemma_pieces_len_remove(s.drop_last(), j);
        assert(s.remove(j).drop_last() =~= s.drop_last().remove(j));
        assert(s.remove(j).last() == s.last());
    }
}

/// Bytes that chunks of a file are written over are the bytes of the file.
proof fn lemma_written(file: Seq<u8>, pieces: Seq<(nat, Seq<u8>)>, data: Seq<u8>)
    requires
        data.len() <= file.len(),
        forall|k: int| 0 <= k < pieces.len() ==> agrees(#[trigger] pieces[k], data),
    ensures
        written(file, pieces).len() == file.len(),
        forall|b: int|
            data.len() <= b < file.len() ==> #[trigger] written(file, pieces)[b] == file[b],
        forall|b: int| #[trigger] covered(b, pieces) ==> written(file, pieces)[b] == data[b],
    decreases pieces.len(),
{
    if pieces.len() > 0 {
        let before = pieces.drop_last();
        let p = pieces.last();
        assert forall|k: int| 0 <= k < before.len() implies agrees(#[trigger] before[k], data) by {
            assert(agrees(pieces[k], data));
        }
        lemma_written(file, before, data);
        assert(agrees(pieces[pieces.len() - 1], data));
        assert forall|b: int| in_piece(b, p) implies p.1[b - p.0] == #[trigger] data[b] by {
            let sub = data.subrange(p.0 as int, (p.0 + p.1.len()) as int);
            assert(sub[b - p.0] == data[b]);
        }
        assert forall|b: int| #[trigger] covered(b, pieces) implies written(file, pieces)[b]
            == data[b] by {
            let k = choose|k: int| 0 <= k < pieces.len() && in_piece(b, #[trigger] pieces[k]);
            assert(agrees(pieces[k], data));
            if !in_piece(b, p) {
                assert(before[k] == pieces[k]);
                assert(covered(b, before));
            }
        }
    }
}

/// However a file is cut into chunks, and in whatever order they come over the
/// streams, the file is whole once each has been written: it starts with the
/// bytes read, what lay behind them is as it was, and as many bytes were counted
/// as the file has.
pub proof fn law_chunks_reassemble(
    reads: Seq<Seq<u8>>,
    came: Seq<(nat, Seq<u8>)>,
    file: Seq<u8>,
)
    requires
        came.to_multiset() == pieces_of(reads).to_multiset(),
        joined_reads(reads).len() <= file.len(),
    ensures
        written(file, came) == joined_reads(reads) + file.skip(joined_reads(reads).len() as int),
        pieces_len(came) == joined_reads(reads).len(),
{
    let data = joined_reads(reads);
    let sent = pieces_of(reads);
    lemma_pieces(reads);
    lemma_pieces_len_rearranged(came, sent);
    came.to_multiset_ensures();
    sent.to_multiset_ensures();
    assert forall|k: int| 0 <= k < came.len() implies agrees(#[trigger] came[k], data) by {
        assert(came.contains(came[k]));
        assert(sent.to_multiset().count(came[k]) > 0);
        let m = choose|m: int| 0 <= m < sent.len() && sent[m] == came[k];
        assert(agrees(sent[m], data));
    }
    lemma_written(file, came, data);
    let w = written(file, came);
    assert forall|b: int| 0 <= b < data.len() implies w[b] == data[b] by {
        assert(covered(b, sent));
        let k = choose|k: int| 0 <= k < sent.len() && in_piece(b, #[trigger] sent[k]);
        assert(sent.contains(sent[k]));
        assert(came.to_multiset().count(sent[k]) > 0);
        let m = choose|m: int| 0 <= m < came.len() && came[m] == sent[k];
        assert(in_piece(b, came[m]));
        assert(covered(b, came));
    }
    assert(w =~= data + file.skip(data.len() as int));
}

/// Whether two chunks share no place.
pub open spec fn apart(p: (nat, Seq<u8>), q: (nat, Seq<u8>)) -> bool {
    p.0 + p.1.len() <= q.0 || q.0 + q.1.len() <= p.0
}

/// Whether chunks that share a place put the same byte there.
spec fn at_one(pieces: Seq<(nat, Seq<u8>)>) -> bool {
    forall|i: int, j: int, b: int|
        0 <= i < pieces.len() && 0 <= j < pieces.len() && #[trigger] in_piece(b, pieces[i])
            && #[trigger] in_piece(b, pieces[j]) ==> pieces[i].1[b - pieces[i].0]
            == pieces[j].1[b - pieces[j].0]
}

proof fn lemma_written_at_one(file: Seq<u8>, pieces: Seq<(nat, Seq<u8>)>)
    requires
        at_one(pieces),
    ensures
        written(file, pieces).len() == file.len(),
        forall|k: int, b: int|
            0 <= k < pieces.len() && 0 <= b < file.len() && #[trigger] in_piece(b, pieces[k])
                ==> written(file, pieces)[b] == pieces[k].1[b - pieces[k].0],
        forall|b: int|
            0 <= b < file.len() && !covered(b, pieces) ==> #[trigger] written(file, pieces)[b]
                == file[b],
    decreases pieces.len(),
{
    if pieces.len() > 0 {
        let before = pieces.drop_last();
        let last = pieces.len() - 1;
        assert forall|i: int, j: int, b: int|
            0 <= i < before.len() && 0 <= j < before.len() && #[trigger] in_piece(b, before[i])
                && #[trigger] in_piece(b, before[j]) implies before[i].1[b - before[i].0]
            == before[j].1[b - before[j].0] by {
            assert(in_piece(b, pieces[i]) && in_piece(b, pieces[j]));
        }
        lemma_written_at_one(file, before);
        assert forall|k: int, b: int|
            0 <= k < pieces.len() && 0 <= b < file.len() && #[trigger] in_piece(
                b,
                pieces[k],
            ) implies written(file, pieces)[b] == pieces[k].1[b - pieces[k].0] by {
            if !in_piece(b, pieces[last]) {
                assert(in_piece(b, before[k]));
            }
        }
        assert forall|b: int| 0 <= b < file.len() && !covered(b, pieces) implies #[trigger] written(
            file,
            pieces,
        )[b] == file[b] by {
            assert(!in_piece(b, pieces[last]));
            if covered(b, before) {
                let k = choose|k: int| 0 <= k < before.len() && in_piece(b, #[trigger] before[k]);
                assert(in_piece(b, pieces[k]));
            }
        }
    }
}

/// Chunks of a file that share no place leave the same file in whatever order
/// they come: each stands where it belongs, every other byte is as it was, and as
/// many bytes are counted.
pub proof fn law_disjoint_chunks_come_in_any_order(
    file: Seq<u8>,
    sent: Seq<(nat, Seq<u8>)>,
    came: Seq<(nat, Seq<u8>)>,
)
    requires
        came.to_multiset() == sent.to_multiset(),
        forall|i: int, j: int|
            0 <= i < j < sent.len() ==> apart(#[trigger] sent[i], #[trigger] sent[j]),
        forall|i: int|
            0 <= i < sent.len() ==> (#[trigger] sent[i]).0 + sent[i].1.len() <= file.len(),
    ensures
        written(file, came) == written(file, sent),
        written(file, came).len() == file.len(),
        forall|k: int, n: int|
            0 <= k < sent.len() && 0 <= n < sent[k].1.len() ==> written(file, came)[sent[k].0 + n]
                == #[trigger] sent[k].1[n],
        forall|b: int|
            0 <= b < file.len() && (forall|k: int|
                0 <= k < sent.len() ==> !((#[trigger] sent[k]).0 <= b < sent[k].0
                    + sent[k].1.len())) ==> #[trigger] written(file, came)[b] == file[b],
        pieces_len(came) == pieces_len(sent),
{
    lemma_pieces_len_rearranged(came, sent);
    came.to_multiset_ensures();
    sent.to_multiset_ensures();
    assert(at_one(sent)) by {
        assert forall|i: int, j: int, b: int|
            0 <= i < sent.len() && 0 <= j < sent.len() && #[trigger] in_piece(b, sent[i])
                && #[trigger] in_piece(b, sent[j]) implies sent[i].1[b - sent[i].0]
            == sent[j].1[b - sent[j].0] by {
            if i < j {
                assert(apart(sent[i], sent[j]));
            } else if j < i {
                assert(apart(sent[j], sent[i]));
            }
        }
    }
    assert forall|k: int| 0 <= k < came.len() implies #[trigger] sent.contains(came[k]) by {
        assert(came.contains(came[k]));
        assert(sent.to_multiset().count(came[k]) > 0);
    }
    assert(at_one(came)) by {
        assert forall|i: int, j: int, b: int|
            0 <= i < came.len() && 0 <= j < came.len() && #[trigger] in_piece(b, came[i])
                && #[trigger] in_piece(b, came[j]) implies came[i].1[b - came[i].0]
            == came[j].1[b - came[j].0] by {
            assert(sent.contains(came[i]) && sent.contains(came[j]));
            let x = choose|x: int| 0 <= x < sent.len() && sent[x] == came[i];
            let y = choose|y: int| 0 <= y < sent.len() && sent[y] == came[j];
            assert(in_piece(b, sent[x]) && in_piece(b, sent[y]));
        }
    }
    lemma_written_at_one(file, sent);
    lemma_written_at_one(file, came);
    let w = written(file, came);
    assert forall|b: int| 0 <= b < file.len() implies w[b] == #[trigger] written(file, sent)[b] by {
        if covered(b, sent) {
            let k = choose|k: int| 0 <= k < sent.len() && in_piece(b, #[trigger] sent[k]);
            assert(sent.contains(sent[k]));
            assert(came.to_multiset().count(sent[k]) > 0);
            let m = choose|m: int| 0 <= m < came.len() && came[m] == sent[k];
            assert(in_piece(b, came[m]));
        } else if covered(b, came) {
            let k = choose|k: int| 0 <= k < came.len() && in_piece(b, #[trigger] came[k]);
            assert(sent.contains(came[k]));
            let m = choose|m: int| 0 <= m < sent.len() && sent[m] == came[k];
            assert(in_piece(b, sent[m]));
        }
    }
    assert(w =~= written(file, sent));
    assert forall|k: int, n: int| 0 <= k < sent.len() && 0 <= n < sent[k].1.len() implies w[
    sent[k].0 + n] == #[trigger] sent[k].1[n] by {
        assert(in_piece(sent[k].0 + n, sent[k]));
    }
    assert forall|b: int|
        0 <= b < file.len() && (forall|k: int|
            0 <= k < sent.len() ==> !((#[trigger] sent[k]).0 <= b < sent[k].0
                + sent[k].1.len())) implies #[trigger] w[b] == file[b] by {
        if covered(b, sent) {
            let k = choose|k: int| 0 <= k < sent.len() && in_piece(b, #[trigger] sent[k]);
        }
    }
}

/// Each chunk that a sender makes of a read is one that a receiver takes, for
/// the file that was under way and for the place at which it stands in it.
pub proof fn law_sent_chunks_are_taken(s: SendState, reads: Seq<Seq<u8>>, k: int, rest: Seq<u8>)
    requires
        s.nstreams > 0,
        s.worker < s.nstreams,
        s.shard is Some,
        s.shard->0.offset == 0,
        s.shard->0.hashed matches Some(h) ==> h.len() == 0,
        s.sent + joined_reads(reads.take(k)).len() <= u64::MAX,
        0 <= k < reads.len(),
        0 < reads[k].len() <= CHUNK_SIZE,
    ensures
        ({
            let at = after_chunks(s, reads.take(k));
            let frame = chunk_bytes(at.idx as u64, at.shard->0.offset, reads[k]);
            &&& chunk_step(frame + rest) == (ChunkStep::Head {
                file_idx: s.idx as u64,
                offset: joined_reads(reads.take(k)).len() as u64,
                len: reads[k].len() as u32,
            })
            &&& (frame + rest).skip(CHUNK_HEAD_LEN as int) == reads[k] + rest
            &&& at.worker == (s.worker + k) % s.nstreams as int
        }),
{
    law_chunks_are_hashed_in_order(s, reads.take(k));
    let at = after_chunks(s, reads.take(k));
    law_chunk_read_back(at.idx as u64, at.shard->0.offset, reads[k], rest);
}

/// A sharded file for which there was room of its own length is, once all of its
/// chunks were written, the file that was sent. Where a checksum was asked for, its
/// hash is the one that the sender names at the end: it counts for no mismatch.
pub proof fn law_sharded_file_arrives(
    s: SendState,
    reads: Seq<Seq<u8>>,
    came: Seq<(nat, Seq<u8>)>,
    file: Seq<u8>,
    r: RecvState,
)
    requires
        s.nstreams > 0,
        s.worker < s.nstreams,
        s.shard is Some,
        s.shard->0.offset == 0,
        s.shard->0.hashed matches Some(h) ==> h.len() == 0,
        s.sent + joined_reads(reads).len() <= u64::MAX,
        came.to_multiset() == pieces_of(reads).to_multiset(),
        file.len() == joined_reads(reads).len(),
    ensures
        written(file, came) == joined_reads(reads),
        s.shard->0.hashed is Some ==> {
            &&& content_hash(written(file, came)) == shard_hash(after_chunks(s, reads))
            &&& after_verify(
                r,
                shard_hash(after_chunks(s, reads)),
                Some(content_hash(written(file, came))),
            ) == r
        },
{
    law_chunks_are_hashed_in_order(s, reads);
    law_chunks_reassemble(reads, came, file);
    assert(written(file, came) =~= joined_reads(reads));
}

// ---------------------------------------------------------------------------
// Both sides in step
// ---------------------------------------------------------------------------

/// Both sides number the entries alike: they start alike, and each sort of entry
/// takes both one further. So a chunk, and a hash at the end, name the file that
/// the receiver has under that number.
pub proof fn law_entries_are_numbered_alike(
    s: SendState,
    r: RecvState,
    len: nat,
    e: EntryView,
    digest: u64,
    dest: Seq<Seq<char>>,
    kept: bool,
)
    requires
        s.idx == r.idx,
        s.idx < s.njobs,
        r.idx < u64::MAX,
    ensures
        after_dir(s).idx == after_entry(r).idx,
        after_inline(s, len).idx == after_file(r, e, len, digest).idx,
        after_shard(s).idx == after_shard_placed(r, dest, e.size, e.mtime, kept).idx,
        after_shard(s).hashes.last().0 == r.idx,
        after_shard_placed(r, dest, e.size, e.mtime, kept).shards.last().idx == r.idx,
{
}

/// Both sides start to count at the same number, and both check hashes or
/// neither does.
pub proof fn law_both_sides_start_alike(
    h: Handshake,
    compress: bool,
    checksum: bool,
    overwrite: bool,
    anyway: bool,
    njobs: usize,
)
    requires
        h.flags == flag_bits(compress, checksum, overwrite),
    ensures
        send_start(h.nstreams, compress, checksum, njobs, h.total).idx == recv_start(
            h,
            anyway,
        ).idx,
        recv_start(h, anyway).checksum == checksum,
        recv_start(h, anyway).overwrite == (overwrite || anyway),
        recv_start(h, anyway).total == h.total,
{
    crate::sender::law_flags_read_back(compress, checksum, overwrite);
}

/// Where each entry has a hash of its own, the hashes that the receiver holds
/// are those that the sender named.
pub proof fn law_named_hashes_are_held(hashes: Seq<(u64, u64)>, i: int)
    requires
        0 <= i < hashes.len(),
        forall|j: int, k: int|
            0 <= j < k < hashes.len() ==> (#[trigger] hashes[j]).0 != (#[trigger] hashes[k]).0,
    ensures
        hash_map(hashes).dom().contains(hashes[i].0),
        hash_map(hashes)[hashes[i].0] == hashes[i].1,
    decreases hashes.len(),
{
    if i < hashes.len() - 1 {
        law_named_hashes_are_held(hashes.drop_last(), i);
        assert(hashes.drop_last()[i] == hashes[i]);
        assert(hashes[i].0 != hashes[hashes.len() - 1].0);
    }
}

// ---------------------------------------------------------------------------
// The transfer as a whole
// ---------------------------------------------------------------------------

/// Whether compression gave this block for a job, where its file goes over the
/// control stream.
pub open spec fn block_fits(
    j: JobView,
    content: Seq<u8>,
    nstreams: u8,
    compress: bool,
    block: Option<Seq<u8>>,
) -> bool {
    job_form(j, nstreams) == Form::Inline ==> packs(compress, j.rel, content, block)
}

/// What goes over the control stream for a job whose file holds `content`, with
/// what compression gave for it.
pub open spec fn job_item(
    j: JobView,
    content: Seq<u8>,
    nstreams: u8,
    checksum: bool,
    block: Option<Seq<u8>>,
) -> (EntryView, Seq<u8>) {
    match job_form(j, nstreams) {
        Form::Dir => (dir_entry(j), Seq::empty()),
        Form::Inline => sent_inline(j, content, checksum, block),
        Form::Sharded => (shard_entry(j), Seq::empty()),
    }
}

/// Whether these bytes are what goes over the control stream for a job whose
/// file holds `content`.
pub open spec fn is_job_sent(
    bytes: Seq<u8>,
    j: JobView,
    content: Seq<u8>,
    nstreams: u8,
    compress: bool,
    checksum: bool,
) -> bool {
    exists|block: Option<Seq<u8>>| #[trigger]
        block_fits(j, content, nstreams, compress, block) && bytes == item_bytes(
            job_item(j, content, nstreams, checksum, block),
        )
}

/// What goes over the control stream for jobs, in their order, with what
/// compression gave for each.
pub open spec fn job_items(
    jobs: Seq<JobView>,
    contents: Seq<Seq<u8>>,
    nstreams: u8,
    checksum: bool,
    blocks: Seq<Option<Seq<u8>>>,
) -> Seq<(EntryView, Seq<u8>)> {
    Seq::new(
        jobs.len(),
        |i: int| job_item(jobs[i], contents[i], nstreams, checksum, blocks[i]),
    )
}

/// The hashes that the sender names at the end.
pub open spec fn named_hashes(
    jobs: Seq<JobView>,
    contents: Seq<Seq<u8>>,
    nstreams: u8,
    checksum: bool,
) -> Seq<(u64, u64)>
    decreases jobs.len(),
{
    if jobs.len() == 0 {
        Seq::empty()
    } else {
        let k = jobs.len() - 1;
        let before = named_hashes(jobs.drop_last(), contents, nstreams, checksum);
        if job_form(jobs[k], nstreams) == Form::Sharded {
            before.push(
                (
                    k as u64,
                    if checksum {
                        content_hash(contents[k])
                    } else {
                        0
                    },
                ),
            )
        } else {
            before
        }
    }
}

/// The sharded files that the receiver has room for after the entries of jobs.
pub open spec fn placed_shards(jobs: Seq<JobView>, nstreams: u8) -> Seq<ArrivingView>
    decreases jobs.len(),
{
    if jobs.len() == 0 {
        Seq::empty()
    } else {
        let j = jobs.last();
        let before = placed_shards(jobs.drop_last(), nstreams);
        if job_form(j, nstreams) == Form::Sharded {
            before.push(
                ArrivingView {
                    idx: (jobs.len() - 1) as u64,
                    dest: destination(j.rel)->Ok_0,
                    size: j.size,
                    received: 0,
                    mtime: j.mtime,
                    kept: false,
                },
            )
        } else {
            before
        }
    }
}

/// The state of the receiver after an entry with the bytes behind its header;
/// `None` where that ends the transfer. What was there already counts for a
/// sharded file.
pub open spec fn taken(r: RecvState, item: (EntryView, Seq<u8>), there: bool) -> Option<RecvState> {
    let (e, payload) = item;
    match destination(e.rel) {
        Err(_) => None,
        Ok(dest) => match e.kind {
            EntryKind::Dir => Some(after_entry(r)),
            EntryKind::Inline { .. } => if compressed(e.flags) && !unpackable(payload) {
                None
            } else {
                match arrived(e, payload) {
                    Some(c) => Some(after_file(r, e, c.len(), content_hash(c))),
                    None => None,
                }
            },
            EntryKind::Sharded { .. } => Some(
                after_shard_placed(r, dest, e.size, e.mtime, !r.overwrite && there),
            ),
        },
    }
}

/// The state of the receiver after a run of entries, where nothing was there.
pub open spec fn all_taken(r: RecvState, items: Seq<(EntryView, Seq<u8>)>) -> Option<RecvState>
    decreases items.len(),
{
    if items.len() == 0 {
        Some(r)
    } else {
        match all_taken(r, items.drop_last()) {
            Some(s) => taken(s, items.last(), false),
            None => None,
        }
    }
}

/// Whether a job is one that a receiver takes: its path leads somewhere, and its
/// file, where it goes over the control stream, is not too long. Compression
/// gave this block for the file, where it was tried.
pub open spec fn deliverable(
    j: JobView,
    content: Seq<u8>,
    nstreams: u8,
    compress: bool,
    block: Option<Seq<u8>>,
) -> bool {
    &&& destination(j.rel) is Ok
    &&& job_form(j, nstreams) == Form::Inline ==> content.len() <= MAX_INLINE
    &&& block_fits(j, content, nstreams, compress, block)
}

/// What goes over the control stream for such a job is an entry that a receiver
/// takes.
pub proof fn lemma_job_item_is_good(
    j: JobView,
    content: Seq<u8>,
    nstreams: u8,
    compress: bool,
    checksum: bool,
    block: Option<Seq<u8>>,
)
    requires
        deliverable(j, content, nstreams, compress, block),
    ensures
        good_item(job_item(j, content, nstreams, checksum, block)),
{
    if job_form(j, nstreams) == Form::Inline {
        law_inline_file_arrives(j, content, compress, checksum, block, checksum);
    }
}

proof fn lemma_all_taken(
    jobs: Seq<JobView>,
    contents: Seq<Seq<u8>>,
    nstreams: u8,
    compress: bool,
    checksum: bool,
    blocks: Seq<Option<Seq<u8>>>,
    r: RecvState,
)
    requires
        jobs.len() <= contents.len(),
        jobs.len() <= blocks.len(),
        jobs.len() <= u64::MAX,
        r.idx == 0,
        r.mismatches == 0,
        r.shards.len() == 0,
        forall|i: int|
            0 <= i < jobs.len() ==> deliverable(
                #[trigger] jobs[i],
                contents[i],
                nstreams,
                compress,
                blocks[i],
            ),
    ensures
        all_taken(r, job_items(jobs, contents, nstreams, checksum, blocks)) matches Some(s)
            && s.idx == jobs.len() && s.mismatches == 0 && s.shards == placed_shards(
            jobs,
            nstreams,
        ) && s.checksum == r.checksum,
    decreases jobs.len(),
{
    let items = job_items(jobs, contents, nstreams, checksum, blocks);
    if jobs.len() == 0 {
        assert(r.shards =~= Seq::empty());
    } else {
        let before = jobs.drop_last();
        assert forall|i: int| 0 <= i < before.len() implies deliverable(
            #[trigger] before[i],
            contents[i],
            nstreams,
            compress,
            blocks[i],
        ) by {
            assert(deliverable(jobs[i], contents[i], nstreams, compress, blocks[i]));
        }
        lemma_all_taken(before, contents, nstreams, compress, checksum, blocks, r);
        assert(items.drop_last() =~= job_items(before, contents, nstreams, checksum, blocks));
        let k = jobs.len() - 1;
        let j = jobs[k];
        assert(deliverable(j, contents[k], nstreams, compress, blocks[k]));
        if job_form(j, nstreams) == Form::Inline {
            law_inline_file_arrives(j, contents[k], compress, checksum, blocks[k], r.checksum);
        }
        assert(items.last() == job_item(j, contents[k], nstreams, checksum, blocks[k]));
    }
}

proof fn lemma_named_hashes(
    jobs: Seq<JobView>,
    contents: Seq<Seq<u8>>,
    nstreams: u8,
    checksum: bool,
)
    requires
        jobs.len() <= contents.len(),
        jobs.len() <= u64::MAX,
    ensures
        ({
            let shards = placed_shards(jobs, nstreams);
            let hashes = named_hashes(jobs, contents, nstreams, checksum);
            &&& shards.len() == hashes.len()
            &&& forall|i: int|
                0 <= i < shards.len() ==> {
                    &&& (#[trigger] shards[i]).idx < jobs.len()
                    &&& hashes[i].0 == shards[i].idx
                    &&& hashes[i].1 == if checksum {
                        content_hash(contents[shards[i].idx as int])
                    } else {
                        0
                    }
                }
            &&& forall|i: int, j: int|
                0 <= i < j < hashes.len() ==> (#[trigger] hashes[i]).0 < (#[trigger] hashes[j]).0
        }),
    decreases jobs.len(),
{
    if jobs.len() > 0 {
        lemma_named_hashes(jobs.drop_last(), contents, nstreams, checksum);
        let shards = placed_shards(jobs, nstreams);
        let hashes = named_hashes(jobs, contents, nstreams, checksum);
        let s0 = placed_shards(jobs.drop_last(), nstreams);
        let h0 = named_hashes(jobs.drop_last(), contents, nstreams, checksum);
        assert forall|i: int| 0 <= i < shards.len() implies {
            &&& (#[trigger] shards[i]).idx < jobs.len()
            &&& hashes[i].0 == shards[i].idx
            &&& hashes[i].1 == if checksum {
                content_hash(contents[shards[i].idx as int])
            } else {
                0
            }
        } by {
            if i < s0.len() {
                assert(shards[i] == s0[i] && hashes[i] == h0[i]);
            }
        }
        assert forall|i: int, j: int| 0 <= i < j < hashes.len() implies (#[trigger] hashes[i]).0 < (
        #[trigger] hashes[j]).0 by {
            assert(hashes[i] == h0[i]);
            assert(s0[i].idx < jobs.len() - 1);
            if j < h0.len() {
                assert(hashes[j] == h0[j]);
            }
        }
    }
}

/// A transfer arrives. Whatever jobs are sent, in whatever forms and with
/// whatever options, and whatever blocks compression gives: the receiver reads
/// off the control stream all of the entries and nothing else, takes each of
/// them, and finds no mismatch; each sharded file stands under the number of its
/// job; and where hashes are checked, a sharded file is checked against the hash
/// of what was sent.
pub proof fn law_transfer_arrives(
    jobs: Seq<JobView>,
    contents: Seq<Seq<u8>>,
    nstreams: u8,
    compress: bool,
    checksum: bool,
    blocks: Seq<Option<Seq<u8>>>,
    r: RecvState,
    rest: Seq<u8>,
)
    requires
        jobs.len() == contents.len() == blocks.len(),
        jobs.len() <= u64::MAX,
        r.idx == 0,
        r.mismatches == 0,
        r.shards.len() == 0,
        r.checksum == checksum,
        forall|i: int|
            0 <= i < jobs.len() ==> deliverable(
                #[trigger] jobs[i],
                contents[i],
                nstreams,
                compress,
                blocks[i],
            ),
    ensures
        ({
            let items = job_items(jobs, contents, nstreams, checksum, blocks);
            let hashes = named_hashes(jobs, contents, nstreams, checksum);
            let tail = end_bytes(hashes) + rest;
            &&& read_items(items_bytes(items) + tail) == Some((items, tail))
            &&& all_taken(r, items) is Some
            &&& all_taken(r, items)->0.mismatches == 0
            &&& all_taken(r, items)->0.idx == jobs.len()
            &&& all_taken(r, items)->0.shards == placed_shards(jobs, nstreams)
            &&& forall|i: int|
                0 <= i < placed_shards(jobs, nstreams).len() ==> ((#[trigger] to_verify(
                    all_taken(r, items)->0,
                    hash_map(hashes),
                    i,
                )) matches Some(h) ==> h == content_hash(
                    contents[placed_shards(jobs, nstreams)[i].idx as int],
                ))
        }),
{
    let items = job_items(jobs, contents, nstreams, checksum, blocks);
    let hashes = named_hashes(jobs, contents, nstreams, checksum);
    assert forall|i: int| 0 <= i < items.len() implies #[trigger] good_item(items[i]) by {
        assert(deliverable(jobs[i], contents[i], nstreams, compress, blocks[i]));
        lemma_job_item_is_good(jobs[i], contents[i], nstreams, compress, checksum, blocks[i]);
    }
    law_entries_read_back(items, hashes, rest);
    lemma_all_taken(jobs, contents, nstreams, compress, checksum, blocks, r);
    lemma_named_hashes(jobs, contents, nstreams, checksum);
    let s = all_taken(r, items)->0;
    let shards = placed_shards(jobs, nstreams);
    assert forall|i: int| 0 <= i < shards.len() implies ((#[trigger] to_verify(
        s,
        hash_map(hashes),
        i,
    )) matches Some(h) ==> h == content_hash(contents[shards[i].idx as int])) by {
        assert(shards[i].idx == hashes[i].0);
        law_named_hashes_are_held(hashes, i);
    }
}

} // verus!

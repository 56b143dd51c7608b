//! A data connection from its opening to its end.

use vstd::prelude::*;

use crate::messages::{
    chunk_bytes,
    chunk_step,
    hello_bytes,
    law_chunk_read_back,
    law_hello_is_answered,
    CHUNK_HEAD_LEN,
    HELLO_LEN,
};
use crate::protocol::MAX_CHUNK;
use crate::receiver::{after_chunk_written, ArrivingView, RecvState};
use crate::receiving::{data_acts, DataAction, DataConn, DataEvent, DataPhase};
use crate::transfer::{apart, law_disjoint_chunks_come_in_any_order, pieces_len, written};
use crate::wire::lemma_le_bytes_len;

verus! {

broadcast use lemma_le_bytes_len;

/// A chunk on its way: the index of its file, its place in the file, and its
/// bytes.
#[verifier::ext_equal]
pub struct Chunk {
    pub idx: u64,
    pub offset: u64,
    pub data: Seq<u8>,
}

/// Chunks as they stand on a data stream.
pub open spec fn chunks_bytes(chunks: Seq<Chunk>) -> Seq<u8>
    decreases chunks.len(),
{
    if chunks.len() == 0 {
        Seq::empty()
    } else {
        let c = chunks.last();
        chunks_bytes(chunks.drop_last()) + chunk_bytes(c.idx, c.offset, c.data)
    }
}

/// Where a data connection stands: the connection, what is to be done next, how
/// much of the stream was read, what was answered, and the chunks that came.
pub struct DataRun {
    pub c: DataConn,
    pub a: DataAction,
    pub read: nat,
    pub answers: Seq<u8>,
    pub came: Seq<Chunk>,
}

/// A connection that was just taken.
pub open spec fn data_begun(r: DataRun, token: u64) -> bool {
    &&& r.c == (DataConn { token, phase: DataPhase::Hello, refused: false })
    &&& r.a == DataAction::Read(HELLO_LEN)
    &&& r.read == 0
    &&& r.answers.len() == 0
    &&& r.came.len() == 0
}

/// What was asked for is done: reading gives the next bytes of the stream, or its
/// end where there are too few.
pub open spec fn data_served(r: DataRun, ev: DataEvent, stream: Seq<u8>, read: nat) -> bool {
    match r.a {
        DataAction::Read(n) => if r.read + n <= stream.len() {
            read == r.read + n && (ev matches DataEvent::Bytes(b) && b@ == stream.subrange(
                r.read as int,
                read as int,
            ))
        } else {
            read == stream.len() && ev is End
        },
        DataAction::Answer(_) => read == r.read && ev is Done,
        DataAction::Write { .. } => read == r.read && ev is Done,
        _ => false,
    }
}

/// One turn of a data connection.
pub open spec fn data_turn(r: DataRun, ev: DataEvent, r2: DataRun, stream: Seq<u8>) -> bool {
    &&& data_served(r, ev, stream, r2.read)
    &&& data_acts(r.c, ev, r2.c, r2.a)
    &&& r2.answers == match r2.a {
        DataAction::Answer(x) => r.answers.push(x),
        _ => r.answers,
    }
    &&& r2.came == match r2.a {
        DataAction::Write { file_idx, offset, data } => r.came.push(
            Chunk { idx: file_idx, offset, data: data@ },
        ),
        _ => r.came,
    }
}

/// A data connection from its opening on, turn by turn.
pub open spec fn is_data_run(
    runs: Seq<DataRun>,
    evs: Seq<DataEvent>,
    token: u64,
    stream: Seq<u8>,
) -> bool {
    &&& runs.len() == evs.len() + 1
    &&& data_begun(runs[0], token)
    &&& forall|i: int|
        0 <= i < evs.len() ==> #[trigger] data_turn(runs[i], evs[i], runs[i + 1], stream)
}

/// What holds of a data connection whose stream holds an opening with the token
/// of the transfer and then these chunks.
spec fn data_holds(r: DataRun, token: u64, chunks: Seq<Chunk>) -> bool {
    let k = r.came.len() as int;
    let at = HELLO_LEN + chunks_bytes(chunks.take(k)).len();
    &&& r.c.token == token
    &&& k <= chunks.len()
    &&& r.came == chunks.take(k)
    &&& match r.c.phase {
        DataPhase::Hello => data_begun(r, token),
        DataPhase::Ready => !r.c.refused && r.answers == seq![0u8] && r.read == at && (r.a is Answer
            || r.a is Write),
        DataPhase::Head => !r.c.refused && r.answers == seq![0u8] && r.read == at && r.a
            == DataAction::Read(CHUNK_HEAD_LEN),
        DataPhase::Body { file_idx, offset } => !r.c.refused && r.answers == seq![0u8] && k
            < chunks.len() && r.read == at + CHUNK_HEAD_LEN && file_idx == chunks[k].idx && offset
            == chunks[k].offset && r.a == DataAction::Read(chunks[k].data.len() as usize),
        DataPhase::Over => r.a is Finish && k == chunks.len() && r.answers == seq![0u8],
    }
}

proof fn lemma_chunks_at(chunks: Seq<Chunk>, k: int)
    requires
        0 <= k < chunks.len(),
    ensures
        ({
            let c = chunks[k];
            let all = chunks_bytes(chunks);
            let at = chunks_bytes(chunks.take(k)).len() as int;
            let one = chunk_bytes(c.idx, c.offset, c.data);
            &&& at + one.len() <= all.len()
            &&& all.subrange(at, at + one.len()) == one
            &&& chunks_bytes(chunks.take(k + 1)).len() == at + one.len()
        }),
    decreases chunks.len(),
{
    let c = chunks[k];
    let all = chunks_bytes(chunks);
    let at = chunks_bytes(chunks.take(k)).len() as int;
    let one = chunk_bytes(c.idx, c.offset, c.data);
    assert(chunks.take(k + 1).drop_last() =~= chunks.take(k));
    if k == chunks.len() - 1 {
        assert(chunks.take(k + 1) =~= chunks);
        assert(all.subrange(at, at + one.len()) =~= one);
    } else {
        let before = chunks.drop_last();
        lemma_chunks_at(before, k);
        assert(before.take(k) =~= chunks.take(k));
        assert(before.take(k + 1) =~= chunks.take(k + 1));
        assert(all.subrange(at, at + one.len()) =~= chunks_bytes(before).subrange(
            at,
            at + one.len(),
        ));
    }
}

proof fn lemma_data_turn(
    r: DataRun,
    ev: DataEvent,
    r2: DataRun,
    token: u64,
    chunks: Seq<Chunk>,
)
    requires
        data_holds(r, token, chunks),
        data_turn(r, ev, r2, hello_bytes(token) + chunks_bytes(chunks)),
        forall|i: int|
            0 <= i < chunks.len() ==> 0 < (#[trigger] chunks[i]).data.len() <= MAX_CHUNK,
    ensures
        data_holds(r2, token, chunks),
{
    let stream = hello_bytes(token) + chunks_bytes(chunks);
    let k = r.came.len() as int;
    let at = HELLO_LEN + chunks_bytes(chunks.take(k)).len() as int;
    assert(hello_bytes(token).len() == HELLO_LEN);
    match r.c.phase {
        DataPhase::Hello => {
            law_hello_is_answered(token, token);
            assert(stream.subrange(0, HELLO_LEN as int) =~= hello_bytes(token));
            assert(chunks.take(0) =~= Seq::empty());
            assert(r2.answers =~= seq![0u8]);
            assert(r2.came =~= chunks.take(0));
        },
        DataPhase::Ready => {},
        DataPhase::Head => {
            if k < chunks.len() {
                let c = chunks[k];
                let one = chunk_bytes(c.idx, c.offset, c.data);
                lemma_chunks_at(chunks, k);
                let none: Seq<u8> = Seq::empty();
                law_chunk_read_back(c.idx, c.offset, c.data, none);
                assert(one + none =~= one);
                let head = stream.subrange(at, at + CHUNK_HEAD_LEN);
                assert(stream.subrange(at, at + one.len()) =~= one);
                assert(head =~= one.take(CHUNK_HEAD_LEN as int));
                assert(head.subrange(0, 8) =~= one.subrange(0, 8));
                assert(head.subrange(8, 16) =~= one.subrange(8, 16));
                assert(head.subrange(16, 20) =~= one.subrange(16, 20));
                assert(chunk_step(head) == chunk_step(one));
            } else {
                assert(chunks.take(k) =~= chunks);
            }
        },
        DataPhase::Body { file_idx, offset } => {
            let c = chunks[k];
            let one = chunk_bytes(c.idx, c.offset, c.data);
            lemma_chunks_at(chunks, k);
            let none: Seq<u8> = Seq::empty();
            law_chunk_read_back(c.idx, c.offset, c.data, none);
            assert(stream.subrange(at, at + one.len()) =~= one);
            let body = stream.subrange(at + CHUNK_HEAD_LEN, at + one.len());
            assert(body =~= one.skip(CHUNK_HEAD_LEN as int));
            assert(one + none =~= one);
            assert(c.data + none =~= c.data);
            assert(body == c.data);
            assert(r2.came =~= chunks.take(k + 1));
        },
        DataPhase::Over => {},
    }
}

proof fn lemma_data_run(
    runs: Seq<DataRun>,
    evs: Seq<DataEvent>,
    token: u64,
    chunks: Seq<Chunk>,
    n: int,
)
    requires
        is_data_run(runs, evs, token, hello_bytes(token) + chunks_bytes(chunks)),
        forall|i: int|
            0 <= i < chunks.len() ==> 0 < (#[trigger] chunks[i]).data.len() <= MAX_CHUNK,
        0 <= n < runs.len(),
    ensures
        data_holds(runs[n], token, chunks),
    decreases n,
{
    if n == 0 {
        assert(runs[0].came =~= chunks.take(0));
    } else {
        lemma_data_run(runs, evs, token, chunks, n - 1);
        let stream = hello_bytes(token) + chunks_bytes(chunks);
        assert(data_turn(runs[n - 1], evs[n - 1], runs[n - 1 + 1], stream));
        lemma_data_turn(runs[n - 1], evs[n - 1], runs[n], token, chunks);
    }
}

/// A data connection that was opened with the token of the transfer takes all of
/// the chunks on its stream, as they were sent and in that order, and no others.
/// It never fails: at every turn it has taken the first of them, and where it is
/// over, all. The opening is answered once, and with consent.
pub proof fn law_data_stream_is_taken(
    runs: Seq<DataRun>,
    evs: Seq<DataEvent>,
    token: u64,
    chunks: Seq<Chunk>,
    n: int,
)
    requires
        is_data_run(runs, evs, token, hello_bytes(token) + chunks_bytes(chunks)),
        forall|i: int|
            0 <= i < chunks.len() ==> 0 < (#[trigger] chunks[i]).data.len() <= MAX_CHUNK,
        0 <= n < runs.len(),
    ensures
        runs[n].came.len() <= chunks.len(),
        runs[n].came == chunks.take(runs[n].came.len() as int),
        !(runs[n].a is Fail),
        runs[n].a is Finish ==> runs[n].came == chunks && runs[n].answers == seq![0u8],
{
    lemma_data_run(runs, evs, token, chunks, n);
    if runs[n].a is Finish {
        assert(chunks.take(chunks.len() as int) =~= chunks);
    }
}

// ---------------------------------------------------------------------------
// The order of chunks
// ---------------------------------------------------------------------------

/// The chunks of one file, each with its place.
pub open spec fn pieces_for(chunks: Seq<Chunk>, idx: u64) -> Seq<(nat, Seq<u8>)>
    decreases chunks.len(),
{
    if chunks.len() == 0 {
        Seq::empty()
    } else {
        let c = chunks.last();
        let before = pieces_for(chunks.drop_last(), idx);
        if c.idx == idx {
            before.push((c.offset as nat, c.data))
        } else {
            before
        }
    }
}

/// Where the sharded file with an index stands.
pub open spec fn place_of(shards: Seq<ArrivingView>, idx: u64) -> int {
    choose|i: int| 0 <= i < shards.len() && (#[trigger] shards[i]).idx == idx
}

/// Whether there is a sharded file with an index.
pub open spec fn has_place(shards: Seq<ArrivingView>, idx: u64) -> bool {
    exists|i: int| 0 <= i < shards.len() && (#[trigger] shards[i]).idx == idx
}

/// The state of the receiver after chunks were counted.
pub open spec fn after_came(s: RecvState, chunks: Seq<Chunk>) -> RecvState
    decreases chunks.len(),
{
    if chunks.len() == 0 {
        s
    } else {
        let before = after_came(s, chunks.drop_last());
        let c = chunks.last();
        after_chunk_written(before, place_of(before.shards, c.idx), c.data.len() as u64)
    }
}

/// Whether chunks of one file share no place, and each lies within the file.
pub open spec fn lie_apart(chunks: Seq<Chunk>, idx: u64, size: nat) -> bool {
    &&& forall|i: int, j: int|
        0 <= i < j < chunks.len() && (#[trigger] chunks[i]).idx == idx && (#[trigger] chunks[j]).idx
            == idx ==> apart(
            (chunks[i].offset as nat, chunks[i].data),
            (chunks[j].offset as nat, chunks[j].data),
        )
    &&& forall|i: int|
        0 <= i < chunks.len() && (#[trigger] chunks[i]).idx == idx ==> chunks[i].offset
            + chunks[i].data.len() <= size
}

proof fn lemma_pieces_for(chunks: Seq<Chunk>, idx: u64, size: nat)
    requires
        lie_apart(chunks, idx, size),
    ensures
        ({
            let pieces = pieces_for(chunks, idx);
            &&& forall|p: int|
                0 <= p < pieces.len() ==> is_piece_of(#[trigger] pieces[p], chunks, idx)
            &&& forall|p: int|
                0 <= p < pieces.len() ==> (#[trigger] pieces[p]).0 + pieces[p].1.len() <= size
            &&& forall|p: int, q: int|
                0 <= p < q < pieces.len() ==> apart(#[trigger] pieces[p], #[trigger] pieces[q])
        }),
    decreases chunks.len(),
{
    if chunks.len() > 0 {
        let before = chunks.drop_last();
        let k = chunks.len() - 1;
        let old = pieces_for(before, idx);
        let pieces = pieces_for(chunks, idx);
        assert(lie_apart(before, idx, size)) by {
            assert forall|i: int, j: int|
                0 <= i < j < before.len() && (#[trigger] before[i]).idx == idx && (
                #[trigger] before[j]).idx == idx implies apart(
                (before[i].offset as nat, before[i].data),
                (before[j].offset as nat, before[j].data),
            ) by {
                assert(chunks[i] == before[i] && chunks[j] == before[j]);
            }
            assert forall|i: int| 0 <= i < before.len() && (#[trigger] before[i]).idx
                == idx implies before[i].offset + before[i].data.len() <= size by {
                assert(chunks[i] == before[i]);
            }
        }
        lemma_pieces_for(before, idx, size);
        assert forall|p: int| 0 <= p < pieces.len() implies is_piece_of(
            #[trigger] pieces[p],
            chunks,
            idx,
        ) by {
            if p < old.len() {
                assert(is_piece_of(old[p], before, idx));
                let g = choose|g: int|
                    0 <= g < before.len() && (#[trigger] before[g]).idx == idx && old[p] == (
                        before[g].offset as nat,
                        before[g].data,
                    );
                assert(chunks[g] == before[g]);
            } else {
                assert(chunks[k].idx == idx);
            }
        }
        assert forall|p: int, q: int| 0 <= p < q < pieces.len() implies apart(
            #[trigger] pieces[p],
            #[trigger] pieces[q],
        ) by {
            if q == old.len() {
                assert(is_piece_of(old[p], before, idx));
                let g = choose|g: int|
                    0 <= g < before.len() && (#[trigger] before[g]).idx == idx && old[p] == (
                        before[g].offset as nat,
                        before[g].data,
                    );
                assert(chunks[g] == before[g]);
                assert(chunks[k].idx == idx);
            } else {
                assert(apart(old[p], old[q]));
            }
        }
        assert forall|p: int| 0 <= p < pieces.len() implies (#[trigger] pieces[p]).0
            + pieces[p].1.len() <= size by {
            if p == old.len() {
                assert(chunks[k].idx == idx);
            } else {
                assert(old[p].0 + old[p].1.len() <= size);
            }
        }
    }
}

/// Whether a piece is one of the chunks of a file.
spec fn is_piece_of(piece: (nat, Seq<u8>), chunks: Seq<Chunk>, idx: u64) -> bool {
    exists|g: int|
        0 <= g < chunks.len() && (#[trigger] chunks[g]).idx == idx && piece == (
            chunks[g].offset as nat,
            chunks[g].data,
        )
}

proof fn lemma_pieces_without(chunks: Seq<Chunk>, j: int, idx: u64)
    requires
        0 <= j < chunks.len(),
    ensures
        ({
            let rest = pieces_for(chunks.remove(j), idx).to_multiset();
            let c = chunks[j];
            pieces_for(chunks, idx).to_multiset() == if c.idx == idx {
                rest.insert((c.offset as nat, c.data))
            } else {
                rest
            }
        }),
    decreases chunks.len(),
{
    broadcast use vstd::seq_lib::group_to_multiset_ensures;

    let k = chunks.len() - 1;
    let before = chunks.drop_last();
    if j == k {
        assert(chunks.remove(j) =~= before);
    } else {
        lemma_pieces_without(before, j, idx);
        let rest = chunks.remove(j);
        assert(rest.drop_last() =~= before.remove(j));
        assert(rest.last() == chunks[k]);
        let c = chunks[j];
        let d = chunks[k];
        let x = (c.offset as nat, c.data);
        let y = (d.offset as nat, d.data);
        let m = pieces_for(before.remove(j), idx).to_multiset();
        assert(m.insert(x).insert(y) =~= m.insert(y).insert(x));
    }
}

proof fn lemma_pieces_rearranged(a: Seq<Chunk>, b: Seq<Chunk>, idx: u64)
    requires
        a.to_multiset() == b.to_multiset(),
    ensures
        pieces_for(a, idx).to_multiset() == pieces_for(b, idx).to_multiset(),
    decreases a.len(),
{
    a.to_multiset_ensures();
    b.to_multiset_ensures();
    if a.len() > 0 {
        let x = a.last();
        assert(a.contains(x));
        assert(b.to_multiset().count(x) > 0);
        let j = choose|j: int| 0 <= j < b.len() && b[j] == x;
        let k = a.len() - 1;
        assert(a.remove(k).to_multiset() =~= a.to_multiset().remove(x));
        assert(b.remove(j).to_multiset() =~= b.to_multiset().remove(x));
        lemma_pieces_rearranged(a.remove(k), b.remove(j), idx);
        lemma_pieces_without(a, k, idx);
        lemma_pieces_without(b, j, idx);
    } else {
        assert(b.len() == 0);
    }
}

/// Each chunk is counted for its file.
proof fn lemma_received(s: RecvState, chunks: Seq<Chunk>, i: int)
    requires
        s.wf(),
        0 <= i < s.shards.len(),
        forall|g: int|
            0 <= g < chunks.len() ==> (#[trigger] chunks[g]).data.len() <= MAX_CHUNK && has_place(
                s.shards,
                chunks[g].idx,
            ),
        s.shards[i].received + pieces_len(pieces_for(chunks, s.shards[i].idx)) <= u64::MAX,
    ensures
        ({
            let t = after_came(s, chunks);
            &&& t.shards.len() == s.shards.len()
            &&& forall|j: int|
                0 <= j < s.shards.len() ==> (#[trigger] t.shards[j]).idx == s.shards[j].idx
            &&& t.shards[i].received == s.shards[i].received + pieces_len(
                pieces_for(chunks, s.shards[i].idx),
            )
        }),
    decreases chunks.len(),
{
    if chunks.len() > 0 {
        let before = chunks.drop_last();
        let k = chunks.len() - 1;
        let c = chunks[k];
        let idx = s.shards[i].idx;
        assert forall|g: int| 0 <= g < before.len() implies (#[trigger] before[g]).data.len()
            <= MAX_CHUNK && has_place(s.shards, before[g].idx) by {
            assert(before[g] == chunks[g]);
        }
        let old = pieces_for(before, idx);
        let pieces = pieces_for(chunks, idx);
        if c.idx == idx {
            assert(pieces.drop_last() =~= old);
        }
        lemma_received(s, before, i);
        let t = after_came(s, before);
        assert(has_place(s.shards, c.idx));
        let p = choose|p: int| 0 <= p < s.shards.len() && (#[trigger] s.shards[p]).idx == c.idx;
        assert(t.shards[p].idx == c.idx);
        let q = place_of(t.shards, c.idx);
        assert(0 <= q < t.shards.len() && t.shards[q].idx == c.idx);
        assert(s.shards[q].idx == c.idx);
        assert(c.idx == idx <==> q == i) by {
            if q < i {
                assert(s.shards[q].idx < s.shards[i].idx);
            } else if i < q {
                assert(s.shards[i].idx < s.shards[q].idx);
            }
        }
    }
}

/// Two data connections that get the same chunks in different orders leave the
/// same file, where the chunks of the file share no place and lie within it: each
/// chunk stands at its place, and every other byte is as it was. Both count as many
/// bytes for the file as its chunks have, and both have answered the opening with
/// consent, and no more.
pub proof fn law_chunks_may_come_in_any_order(
    runs: Seq<DataRun>,
    evs: Seq<DataEvent>,
    n: int,
    others: Seq<DataRun>,
    other_evs: Seq<DataEvent>,
    m: int,
    token: u64,
    sent: Seq<Chunk>,
    shuffled: Seq<Chunk>,
    s: RecvState,
    i: int,
    file: Seq<u8>,
)
    requires
        is_data_run(runs, evs, token, hello_bytes(token) + chunks_bytes(sent)),
        is_data_run(others, other_evs, token, hello_bytes(token) + chunks_bytes(shuffled)),
        0 <= n < runs.len(),
        0 <= m < others.len(),
        runs[n].a is Finish,
        others[m].a is Finish,
        sent.to_multiset() == shuffled.to_multiset(),
        s.wf(),
        forall|g: int|
            0 <= g < sent.len() ==> 0 < (#[trigger] sent[g]).data.len() <= MAX_CHUNK && has_place(
                s.shards,
                sent[g].idx,
            ),
        0 <= i < s.shards.len(),
        lie_apart(sent, s.shards[i].idx, file.len()),
        s.shards[i].received + pieces_len(pieces_for(sent, s.shards[i].idx)) <= u64::MAX,
    ensures
        runs[n].answers == seq![0u8],
        others[m].answers == seq![0u8],
        ({
            let idx = s.shards[i].idx;
            let after = written(file, pieces_for(runs[n].came, idx));
            let grown = s.shards[i].received + pieces_len(pieces_for(sent, idx));
            &&& after == written(file, pieces_for(others[m].came, idx))
            &&& after.len() == file.len()
            &&& forall|g: int, x: int|
                0 <= g < sent.len() && sent[g].idx == idx && 0 <= x < sent[g].data.len()
                    ==> after[sent[g].offset + x] == #[trigger] sent[g].data[x]
            &&& forall|b: int|
                0 <= b < file.len() && (forall|g: int|
                    0 <= g < sent.len() && (#[trigger] sent[g]).idx == idx ==> !(sent[g].offset <= b
                        < sent[g].offset + sent[g].data.len())) ==> #[trigger] after[b] == file[b]
            &&& after_came(s, runs[n].came).shards[i].received == grown
            &&& after_came(s, others[m].came).shards[i].received == grown
        }),
{
    let idx = s.shards[i].idx;
    let pieces = pieces_for(sent, idx);
    let came = pieces_for(shuffled, idx);
    sent.to_multiset_ensures();
    shuffled.to_multiset_ensures();
    assert forall|g: int| 0 <= g < shuffled.len() implies 0 < (
    #[trigger] shuffled[g]).data.len() <= MAX_CHUNK && has_place(s.shards, shuffled[g].idx) by {
        assert(shuffled.contains(shuffled[g]));
        assert(sent.to_multiset().count(shuffled[g]) > 0);
        let x = choose|x: int| 0 <= x < sent.len() && sent[x] == shuffled[g];
        assert(sent[x].data.len() > 0);
    }
    law_data_stream_is_taken(runs, evs, token, sent, n);
    law_data_stream_is_taken(others, other_evs, token, shuffled, m);
    lemma_pieces_rearranged(sent, shuffled, idx);
    lemma_pieces_for(sent, idx, file.len());
    law_disjoint_chunks_come_in_any_order(file, pieces, pieces);
    law_disjoint_chunks_come_in_any_order(file, pieces, came);
    lemma_received(s, sent, i);
    lemma_received(s, shuffled, i);
    let after = written(file, pieces);
    assert forall|g: int, x: int|
        0 <= g < sent.len() && sent[g].idx == idx && 0 <= x < sent[g].data.len() implies after[
    sent[g].offset + x] == #[trigger] sent[g].data[x] by {
        lemma_is_among(sent, idx, g);
        let piece = (sent[g].offset as nat, sent[g].data);
        let p = choose|p: int| 0 <= p < pieces.len() && pieces[p] == piece;
        assert(pieces[p].1[x] == sent[g].data[x]);
    }
    assert forall|b: int|
        0 <= b < file.len() && (forall|g: int|
            0 <= g < sent.len() && (#[trigger] sent[g]).idx == idx ==> !(sent[g].offset <= b
                < sent[g].offset + sent[g].data.len())) implies #[trigger] after[b] == file[b] by {
        assert forall|p: int| 0 <= p < pieces.len() implies !((#[trigger] pieces[p]).0 <= b
            < pieces[p].0 + pieces[p].1.len()) by {
            assert(is_piece_of(pieces[p], sent, idx));
            let g = choose|g: int|
                0 <= g < sent.len() && (#[trigger] sent[g]).idx == idx && pieces[p] == (
                    sent[g].offset as nat,
                    sent[g].data,
                );
            assert(sent[g].idx == idx);
        }
    }
}

/// A chunk of a file is among its pieces.
proof fn lemma_is_among(chunks: Seq<Chunk>, idx: u64, g: int)
    requires
        0 <= g < chunks.len(),
        chunks[g].idx == idx,
    ensures
        pieces_for(chunks, idx).contains((chunks[g].offset as nat, chunks[g].data)),
    decreases chunks.len(),
{
    let pieces = pieces_for(chunks, idx);
    let piece = (chunks[g].offset as nat, chunks[g].data);
    if g < chunks.len() - 1 {
        let before = chunks.drop_last();
        lemma_is_among(before, idx, g);
        let old = pieces_for(before, idx);
        let p = choose|p: int| 0 <= p < old.len() && old[p] == piece;
        assert(pieces[p] == piece);
    } else {
        assert(pieces.last() == piece);
    }
}

} // verus!

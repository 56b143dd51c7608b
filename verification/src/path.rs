//! Paths on the wire: relative, with `/` between their components.

use vstd::prelude::*;
use vstd::utf8::*;

use crate::protocol::MAX_PATH_LEN;
use crate::text::{chars_of, same_text, string_of, texts};

verus! {

/// The wire form of a relative path: `/` for every backslash.
pub open spec fn wire_form(rel: Seq<char>) -> Seq<char> {
    rel.map_values(|c: char| if c == '\\' { '/' } else { c })
}

/// The wire form of a relative path, with `/` as the only separator.
pub fn rel_to_wire(rel: &str) -> (r: String)
    ensures
        r@ == wire_form(rel@),
{
    let v: Vec<char> = chars_of(rel);
    let mut r = String::new();
    let mut i: usize = 0;
    while i < v.len()
        invariant
            i <= v@.len(),
            r@ == wire_form(v@.take(i as int)),
        decreases v@.len() - i,
    {
        let c: char = v[i];
        r.push(if c == '\\' { '/' } else { c });
        i = i + 1;
        assert(r@ =~= wire_form(v@.take(i as int)));
    }
    assert(v@.take(i as int) =~= rel@);
    r
}

/// Whether a character parts the components of a path: `/`, and the backslash,
/// which does so on some of the machines that receive.
pub open spec fn parts(c: char) -> bool {
    c == '/' || c == '\\'
}

/// How many characters stand before the first of `s` that parts components.
pub open spec fn segment_len(s: Seq<char>) -> nat
    decreases s.len(),
{
    if s.len() == 0 || parts(s[0]) {
        0
    } else {
        1 + segment_len(s.drop_first())
    }
}

pub proof fn lemma_segment_len(s: Seq<char>)
    ensures
        segment_len(s) <= s.len(),
        forall|i: int| 0 <= i < segment_len(s) ==> !parts(#[trigger] s[i]),
        segment_len(s) < s.len() ==> parts(s[segment_len(s) as int]),
    decreases s.len(),
{
    if s.len() > 0 && !parts(s[0]) {
        lemma_segment_len(s.drop_first());
        assert forall|i: int| 0 <= i < segment_len(s) implies !parts(#[trigger] s[i]) by {
            if i > 0 {
                assert(s[i] == s.drop_first()[i - 1]);
            }
        }
    }
}

/// The pieces of `s` between the characters that part components; always at least
/// one.
pub open spec fn segments(s: Seq<char>) -> Seq<Seq<char>>
    decreases s.len(),
    via segments_decreases
{
    let n = segment_len(s) as int;
    if n >= s.len() {
        seq![s]
    } else {
        seq![s.take(n)] + segments(s.skip(n + 1))
    }
}

#[via_fn]
proof fn segments_decreases(s: Seq<char>) {
    lemma_segment_len(s);
}

fn split_segments(s: &str) -> (r: Vec<String>)
    ensures
        texts(r@) == segments(s@),
{
    let v: Vec<char> = chars_of(s);
    let mut out: Vec<String> = Vec::new();
    let mut from: usize = 0;
    assert(v@.skip(0) =~= v@);
    assert(texts(out@) + segments(v@) =~= segments(v@));
    loop
        invariant_except_break
            from <= v@.len(),
            texts(out@) + segments(v@.skip(from as int)) == segments(v@),
        ensures
            texts(out@) == segments(v@),
        decreases v@.len() - from,
    {
        let ghost rest = v@.skip(from as int);
        let mut to: usize = from;
        while to < v.len() && v[to] != '/' && v[to] != '\\'
            invariant
                from <= to <= v@.len(),
                rest == v@.skip(from as int),
                (to - from) + segment_len(v@.skip(to as int)) == segment_len(rest),
            decreases v@.len() - to,
        {
            assert(v@.skip(to as int).drop_first() =~= v@.skip(to + 1));
            to = to + 1;
        }
        assert(segment_len(rest) == to - from);
        let part = string_of(&v, from, to);
        let ghost before = texts(out@);
        out.push(part);
        assert(texts(out@) =~= before + seq![part@]);
        assert(rest.take(to - from) =~= part@);
        if to == v.len() {
            assert(rest =~= part@);
            assert(texts(out@) =~= before + segments(rest));
            break;
        }
        assert(rest.skip(to - from + 1) =~= v@.skip(to + 1));
        assert(texts(out@) + segments(v@.skip(to + 1)) =~= before + segments(rest));
        from = to + 1;
    }
    out
}

/// Why a wire path is refused.
#[derive(Debug, Clone, Copy, PartialEq, Eq, Structural)]
pub enum PathError {
    /// Empty, or longer than [`MAX_PATH_LEN`] bytes.
    BadLength,
    /// One of its components is `..`, or starts with the name of a drive.
    Escape,
}

/// Whether a component names something below the directory it is applied to.
pub open spec fn names_something(part: Seq<char>) -> bool {
    part.len() > 0 && part != seq!['.']
}

/// The components of a wire path that count: not the empty ones and not `.`.
pub open spec fn components(wire: Seq<char>) -> Seq<Seq<char>> {
    segments(wire).filter(|p: Seq<char>| names_something(p))
}

/// Whether a component starts with the name of a drive: a letter and a colon.
/// Some machines would go to that drive, wherever the component stands.
pub open spec fn has_drive(part: Seq<char>) -> bool {
    part.len() >= 2 && ('a' <= part[0] <= 'z' || 'A' <= part[0] <= 'Z') && part[1] == ':'
}

/// Whether a component leads out of the directory it is applied to.
pub open spec fn leads_out(part: Seq<char>) -> bool {
    part == seq!['.', '.'] || has_drive(part)
}

/// Whether one of the components leads out.
pub open spec fn climbs(wire: Seq<char>) -> bool {
    exists|i: int| 0 <= i < segments(wire).len() && leads_out(#[trigger] segments(wire)[i])
}

/// What a wire path stands for: the components to walk down from the output
/// directory, or the reason why it is refused.
pub open spec fn destination(wire: Seq<char>) -> Result<Seq<Seq<char>>, PathError> {
    if wire.len() == 0 || encode_utf8(wire).len() > MAX_PATH_LEN {
        Err(PathError::BadLength)
    } else if climbs(wire) {
        Err(PathError::Escape)
    } else {
        Ok(components(wire))
    }
}

fn starts_with_drive(part: &str) -> (r: bool)
    ensures
        r == has_drive(part@),
{
    let v: Vec<char> = chars_of(part);
    if v.len() < 2 {
        return false;
    }
    let c: char = v[0];
    (('a' <= c && c <= 'z') || ('A' <= c && c <= 'Z')) && v[1] == ':'
}

/// The components of a wire path, to be walked down from the output directory.
/// A path with a component that leads out is refused.
pub fn wire_to_path(wire: &str) -> (r: Result<Vec<String>, PathError>)
    ensures
        match r {
            Ok(parts) => destination(wire@) == Ok::<_, PathError>(texts(parts@)),
            Err(e) => destination(wire@) == Err::<Seq<Seq<char>>, _>(e),
        },
{
    let bytes: usize = wire.as_bytes().len();
    if wire.is_empty() || bytes > MAX_PATH_LEN {
        return Err(PathError::BadLength);
    }
    let all: Vec<String> = split_segments(wire);
    let ghost segs = segments(wire@);
    let ghost keep = |p: Seq<char>| names_something(p);
    let mut out: Vec<String> = Vec::new();
    let mut i: usize = 0;
    proof {
        reveal_strlit(".");
        reveal_strlit("..");
        assert("."@ =~= seq!['.']);
        assert(".."@ =~= seq!['.', '.']);
        reveal(Seq::filter);
        assert(segs.take(0) =~= Seq::<Seq<char>>::empty());
        assert(texts(out@) =~= segs.take(0).filter(keep));
    }
    while i < all.len()
        invariant
            i <= all@.len(),
            texts(all@) == segs,
            segs == segments(wire@),
            wire@.len() > 0,
            encode_utf8(wire@).len() <= MAX_PATH_LEN,
            "."@ == seq!['.'],
            ".."@ == seq!['.', '.'],
            keep == |p: Seq<char>| names_something(p),
            texts(out@) == segs.take(i as int).filter(keep),
            forall|j: int| 0 <= j < i ==> !leads_out(#[trigger] segs[j]),
        decreases all@.len() - i,
    {
        let comp: &String = &all[i];
        assert(comp@ == segs[i as int]);
        proof {
            reveal(Seq::filter);
            assert(segs.take(i + 1).drop_last() =~= segs.take(i as int));
            assert(segs.take(i + 1).last() == comp@);
        }
        if comp.as_str().is_empty() || same_text(comp.as_str(), ".") {
            assert(comp@.len() < 2);
            i = i + 1;
            continue ;
        }
        if same_text(comp.as_str(), "..") || starts_with_drive(comp.as_str()) {
            assert(leads_out(segs[i as int]));
            return Err(PathError::Escape);
        }
        let ghost before = texts(out@);
        out.push(comp.clone());
        assert(texts(out@) =~= before.push(comp@));
        i = i + 1;
    }
    assert(segs.take(i as int) =~= segs);
    assert(!climbs(wire@));
    Ok(out)
}

// ---------------------------------------------------------------------------
// Laws
// ---------------------------------------------------------------------------

proof fn lemma_segments_are_not_parted(s: Seq<char>, i: int, j: int)
    requires
        0 <= i < segments(s).len(),
        0 <= j < segments(s)[i].len(),
    ensures
        !parts(segments(s)[i][j]),
    decreases s.len(),
{
    lemma_segment_len(s);
    let n = segment_len(s) as int;
    if n < s.len() && i > 0 {
        lemma_segments_are_not_parted(s.skip(n + 1), i - 1, j);
        assert(segments(s)[i] == segments(s.skip(n + 1))[i - 1]);
    }
}

/// A wire path that is not refused leads to a place below the output
/// directory: no component is empty, `.` or `..`, none starts with the name of a
/// drive, and none holds a `/` or a backslash.
pub proof fn law_destination_stays_below(wire: Seq<char>)
    requires
        destination(wire) is Ok,
    ensures
        forall|i: int|
            #![trigger destination(wire)->Ok_0[i]]
            0 <= i < destination(wire)->Ok_0.len() ==> {
                let part = destination(wire)->Ok_0[i];
                &&& part.len() > 0
                &&& part != seq!['.']
                &&& part != seq!['.', '.']
                &&& !has_drive(part)
                &&& !part.contains('/')
                &&& !part.contains('\\')
            },
{
    let segs = segments(wire);
    let keep = |p: Seq<char>| names_something(p);
    let found = destination(wire)->Ok_0;
    broadcast use Seq::lemma_filter_contains_rev;

    assert forall|i: int| #![trigger found[i]] 0 <= i < found.len() implies {
        let part = found[i];
        &&& part.len() > 0
        &&& part != seq!['.']
        &&& part != seq!['.', '.']
        &&& !has_drive(part)
        &&& !part.contains('/')
        &&& !part.contains('\\')
    } by {
        let part = found[i];
        segs.lemma_filter_contains_rev(keep, part);
        let k = choose|k: int| 0 <= k < segs.len() && segs[k] == part;
        segs.lemma_filter_pred(keep, i);
        assert(!leads_out(segs[k]));
        assert forall|j: int| 0 <= j < part.len() implies !parts(#[trigger] part[j]) by {
            lemma_segments_are_not_parted(wire, k, j);
        }
    }
}

/// A wire path with a `..` component is refused wherever the component stands,
/// and whichever characters part it from the others.
pub proof fn law_climbing_is_refused(before: Seq<char>, after: Seq<char>)
    requires
        before.len() == 0 || parts(before.last()),
        after.len() == 0 || parts(after[0]),
    ensures
        destination(before + seq!['.', '.'] + after) is Err,
{
    lemma_climbing_segment(before, after);
}

proof fn lemma_climbing_segment(before: Seq<char>, after: Seq<char>)
    requires
        before.len() == 0 || parts(before.last()),
        after.len() == 0 || parts(after[0]),
    ensures
        climbs(before + seq!['.', '.'] + after),
    decreases before.len(),
{
    let up = seq!['.', '.'];
    let s = before + up + after;
    if before.len() == 0 {
        assert(s =~= up + after);
        assert(s.drop_first() =~= seq!['.'] + after);
        assert(s.drop_first().drop_first() =~= after);
        assert(segment_len(after) == 0);
        assert(segment_len(s.drop_first()) == 1);
        assert(segment_len(s) == 2);
        if after.len() == 0 {
            assert(s =~= up);
            assert(leads_out(segments(s)[0]));
        } else {
            assert(s.take(2) =~= up);
            assert(leads_out(segments(s)[0]));
        }
    } else {
        lemma_segment_len(s);
        let n = segment_len(s) as int;
        assert(s[before.len() - 1] == before.last());
        assert(n < before.len());
        let rest = before.skip(n + 1);
        assert(s.skip(n + 1) =~= rest + up + after);
        if rest.len() > 0 {
            assert(rest.last() == before.last());
        }
        lemma_climbing_segment(rest, after);
        let tail = segments(s.skip(n + 1));
        let k = choose|k: int| 0 <= k < tail.len() && leads_out(#[trigger] tail[k]);
        assert(segments(s)[k + 1] == tail[k]);
    }
}

/// No backslash is left in the wire form of a path.
pub proof fn law_wire_form_has_no_backslash(rel: Seq<char>)
    ensures
        !wire_form(rel).contains('\\'),
{
}

/// Components with a `/` between each two.
pub open spec fn joined(all: Seq<Seq<char>>) -> Seq<char>
    decreases all.len(),
{
    if all.len() == 0 {
        Seq::empty()
    } else if all.len() == 1 {
        all[0]
    } else {
        all[0] + seq!['/'] + joined(all.drop_first())
    }
}

/// Whether `part` can be a component of a path below the output directory.
pub open spec fn plain_part(part: Seq<char>) -> bool {
    &&& part.len() > 0
    &&& part != seq!['.']
    &&& !leads_out(part)
    &&& forall|i: int| 0 <= i < part.len() ==> !parts(#[trigger] part[i])
}

proof fn lemma_segment_len_of_part(part: Seq<char>, after: Seq<char>)
    requires
        forall|i: int| 0 <= i < part.len() ==> !parts(#[trigger] part[i]),
        after.len() == 0 || parts(after[0]),
    ensures
        segment_len(part + after) == part.len(),
    decreases part.len(),
{
    let s = part + after;
    if part.len() == 0 {
        assert(s =~= after);
    } else {
        assert(!parts(part[0]));
        assert(s.drop_first() =~= part.drop_first() + after);
        assert forall|i: int| 0 <= i < part.drop_first().len() implies !parts(
            #[trigger] part.drop_first()[i],
        ) by {
            assert(part.drop_first()[i] == part[i + 1]);
        }
        lemma_segment_len_of_part(part.drop_first(), after);
    }
}

proof fn lemma_segments_of_joined(all: Seq<Seq<char>>)
    requires
        all.len() > 0,
        forall|i: int| 0 <= i < all.len() ==> plain_part(#[trigger] all[i]),
    ensures
        segments(joined(all)) == all,
    decreases all.len(),
{
    let s = joined(all);
    if all.len() == 1 {
        lemma_segment_len_of_part(all[0], Seq::empty());
        assert(all[0] + Seq::<char>::empty() =~= all[0]);
        assert(segments(s) =~= all);
    } else {
        let tail = all.drop_first();
        assert forall|i: int| 0 <= i < tail.len() implies plain_part(#[trigger] tail[i]) by {
            assert(tail[i] == all[i + 1]);
        }
        lemma_segments_of_joined(tail);
        let after = seq!['/'] + joined(tail);
        assert(s =~= all[0] + after);
        lemma_segment_len_of_part(all[0], after);
        let n = all[0].len() as int;
        assert(s.take(n) =~= all[0]);
        assert(s.skip(n + 1) =~= joined(tail));
        assert(segments(s) =~= all);
    }
}

/// The components of a path survive the wire: what the sender joins with `/`
/// the receiver takes apart again.
pub proof fn law_components_survive_the_wire(all: Seq<Seq<char>>)
    requires
        all.len() > 0,
        forall|i: int| 0 <= i < all.len() ==> plain_part(#[trigger] all[i]),
        encode_utf8(joined(all)).len() <= MAX_PATH_LEN,
    ensures
        destination(joined(all)) == Ok::<_, PathError>(all),
{
    lemma_segments_of_joined(all);
    let keep = |p: Seq<char>| names_something(p);
    assert forall|i: int| 0 <= i < all.len() implies keep(#[trigger] all[i]) by {
        assert(plain_part(all[i]));
    }
    lemma_filter_keeps_all(all, keep);
    assert(plain_part(all[0]));
    assert(joined(all).len() > 0);
    if climbs(joined(all)) {
        let k = choose|k: int| 0 <= k < all.len() && leads_out(#[trigger] all[k]);
        assert(plain_part(all[k]));
    }
}

proof fn lemma_filter_keeps_all(s: Seq<Seq<char>>, keep: spec_fn(Seq<char>) -> bool)
    requires
        forall|i: int| 0 <= i < s.len() ==> keep(#[trigger] s[i]),
    ensures
        s.filter(keep) == s,
    decreases s.len(),
{
    reveal(Seq::filter);
    if s.len() > 0 {
        lemma_filter_keeps_all(s.drop_last(), keep);
        assert(keep(s[s.len() - 1]));
        assert(s =~= s.drop_last().push(s.last()));
    } else {
        assert(s.filter(keep) =~= s);
    }
}

/// The wire form of a path is the path with its backslashes turned: it is as long,
/// it has `/` just where the path has a backslash or a `/`, and every other
/// character stands where it stood.
pub proof fn law_wire_form_turns_backslashes_only(rel: Seq<char>, i: int)
    requires
        0 <= i < rel.len(),
    ensures
        wire_form(rel).len() == rel.len(),
        wire_form(rel)[i] == '/' <==> rel[i] == '/' || rel[i] == '\\',
        rel[i] != '\\' ==> wire_form(rel)[i] == rel[i],
{
}

/// Components, each parted from the next by the character that stands at its
/// place among `marks`.
pub open spec fn joined_by(all: Seq<Seq<char>>, marks: Seq<char>) -> Seq<char>
    decreases all.len(),
{
    if all.len() == 0 {
        Seq::empty()
    } else if all.len() == 1 {
        all[0]
    } else {
        all[0] + seq![marks[0]] + joined_by(all.drop_first(), marks.drop_first())
    }
}

/// Whether a component is made of ordinary characters: none that parts components
/// and no colon; and it is neither empty nor one of the two that stand for a
/// directory itself and for the one above it.
pub open spec fn is_ordinary(part: Seq<char>) -> bool {
    &&& part.len() > 0
    &&& !(part.len() == 1 && part[0] == '.')
    &&& !(part.len() == 2 && part[0] == '.' && part[1] == '.')
    &&& forall|i: int|
        0 <= i < part.len() ==> (#[trigger] part[i]) != '/' && part[i] != '\\' && part[i] != ':'
}

proof fn lemma_ordinary_is_plain(part: Seq<char>)
    requires
        is_ordinary(part),
    ensures
        plain_part(part),
{
    assert(!(part =~= seq!['.']));
    assert(!(part =~= seq!['.', '.']));
    if part.len() >= 2 {
        assert(part[1] != ':');
    }
}

/// A path of ordinary components is taken, and leads down these components in
/// their order, whatever else stands in their names.
pub proof fn law_ordinary_paths_are_taken(all: Seq<Seq<char>>)
    requires
        all.len() > 0,
        forall|i: int| 0 <= i < all.len() ==> is_ordinary(#[trigger] all[i]),
        encode_utf8(joined(all)).len() <= 16384,
    ensures
        destination(joined(all)) == Ok::<_, PathError>(all),
{
    assert forall|i: int| 0 <= i < all.len() implies plain_part(#[trigger] all[i]) by {
        lemma_ordinary_is_plain(all[i]);
    }
    law_components_survive_the_wire(all);
}

proof fn lemma_wire_form_of_part(part: Seq<char>)
    requires
        is_ordinary(part),
    ensures
        wire_form(part) == part,
{
    assert(wire_form(part) =~= part);
}

proof fn lemma_wire_form_of_joined(all: Seq<Seq<char>>, marks: Seq<char>)
    requires
        all.len() > 0,
        marks.len() + 1 >= all.len(),
        forall|i: int| 0 <= i < all.len() ==> is_ordinary(#[trigger] all[i]),
        forall|i: int| 0 <= i < marks.len() ==> (#[trigger] marks[i]) == '/' || marks[i] == '\\',
    ensures
        wire_form(joined_by(all, marks)) == joined(all),
    decreases all.len(),
{
    lemma_wire_form_of_part(all[0]);
    if all.len() > 1 {
        let tail = all.drop_first();
        let rest = marks.drop_first();
        assert forall|i: int| 0 <= i < tail.len() implies is_ordinary(#[trigger] tail[i]) by {
            assert(tail[i] == all[i + 1]);
        }
        assert forall|i: int| 0 <= i < rest.len() implies (#[trigger] rest[i]) == '/' || rest[i]
            == '\\' by {
            assert(rest[i] == marks[i + 1]);
        }
        lemma_wire_form_of_joined(tail, rest);
        let part = all[0];
        let s = joined_by(all, marks);
        let n = part.len() as int;
        assert(wire_form(s) =~= joined(all)) by {
            assert forall|i: int| 0 <= i < s.len() implies wire_form(s)[i] == #[trigger] joined(
                all,
            )[i] by {
                if i < n {
                    assert(wire_form(part)[i] == part[i]);
                } else if i == n {
                    assert(s[i] == marks[0]);
                } else {
                    assert(s[i] == joined_by(tail, rest)[i - n - 1]);
                    assert(wire_form(joined_by(tail, rest))[i - n - 1] == joined(tail)[i - n - 1]);
                }
            }
            assert(wire_form(joined_by(tail, rest)).len() == joined_by(tail, rest).len());
        }
    }
}

/// A path keeps its names on the way: what the sender puts on the wire for
/// ordinary components, with a `/` or a backslash between each two, leads on the
/// other side down just these components.
pub proof fn law_names_are_the_same_on_both_sides(all: Seq<Seq<char>>, marks: Seq<char>)
    requires
        all.len() > 0,
        marks.len() == all.len() - 1,
        forall|i: int| 0 <= i < all.len() ==> is_ordinary(#[trigger] all[i]),
        forall|i: int| 0 <= i < marks.len() ==> (#[trigger] marks[i]) == '/' || marks[i] == '\\',
        encode_utf8(joined(all)).len() <= 16384,
    ensures
        destination(wire_form(joined_by(all, marks))) == Ok::<_, PathError>(all),
{
    lemma_wire_form_of_joined(all, marks);
    law_ordinary_paths_are_taken(all);
}

/// Whether the characters from `i` up to `j` are one component of a path: nothing
/// among them parts components, and something that does, or an end of the path,
/// stands on either side.
pub open spec fn stands_between(wire: Seq<char>, i: int, j: int) -> bool {
    &&& 0 <= i <= j <= wire.len()
    &&& i == 0 || wire[i - 1] == '/' || wire[i - 1] == '\\'
    &&& j == wire.len() || wire[j] == '/' || wire[j] == '\\'
    &&& forall|k: int| i <= k < j ==> (#[trigger] wire[k]) != '/' && wire[k] != '\\'
}

/// Whether the characters from `i` up to `j` lead out of a directory: two dots, or
/// a letter and a colon with whatever follows.
pub open spec fn is_way_out(wire: Seq<char>, i: int, j: int) -> bool {
    ||| j == i + 2 && wire[i] == '.' && wire[i + 1] == '.'
    ||| j >= i + 2 && ('a' <= wire[i] <= 'z' || 'A' <= wire[i] <= 'Z') && wire[i + 1] == ':'
}

proof fn lemma_segment_stands(s: Seq<char>, p: int) -> (at: (int, int))
    requires
        0 <= p < segments(s).len(),
    ensures
        stands_between(s, at.0, at.1),
        segments(s)[p] == s.subrange(at.0, at.1),
    decreases s.len(),
{
    lemma_segment_len(s);
    let n = segment_len(s) as int;
    assert forall|k: int| 0 <= k < n implies (#[trigger] s[k]) != '/' && s[k] != '\\' by {
        assert(!parts(s[k]));
    }
    if n >= s.len() {
        assert(s.subrange(0, n) =~= s);
        (0, n)
    } else if p == 0 {
        assert(s.subrange(0, n) =~= s.take(n));
        (0, n)
    } else {
        let rest = s.skip(n + 1);
        let (i, j) = lemma_segment_stands(rest, p - 1);
        assert(segments(s)[p] == segments(rest)[p - 1]);
        assert(s.subrange(i + n + 1, j + n + 1) =~= rest.subrange(i, j));
        assert forall|k: int| i + n + 1 <= k < j + n + 1 implies (#[trigger] s[k]) != '/' && s[k]
            != '\\' by {
            assert(rest[k - n - 1] == s[k]);
        }
        if i > 0 {
            assert(rest[i - 1] == s[i + n]);
        }
        if j < rest.len() {
            assert(rest[j] == s[j + n + 1]);
        }
        (i + n + 1, j + n + 1)
    }
}

proof fn lemma_standing_is_segment(s: Seq<char>, i: int, j: int) -> (p: int)
    requires
        stands_between(s, i, j),
    ensures
        0 <= p < segments(s).len(),
        segments(s)[p] == s.subrange(i, j),
    decreases s.len(),
{
    lemma_segment_len(s);
    let n = segment_len(s) as int;
    if i == 0 {
        assert(n == j) by {
            if n < j {
                assert(parts(s[n]));
            } else if j < n {
                assert(!parts(s[j]));
            }
        }
        assert(segments(s)[0] =~= s.subrange(0, j));
        0
    } else {
        assert(n < i) by {
            if n >= i {
                assert(!parts(s[i - 1]));
            }
        }
        let rest = s.skip(n + 1);
        if i - n - 1 > 0 {
            assert(rest[i - n - 2] == s[i - 1]);
        }
        if j < s.len() {
            assert(rest[j - n - 1] == s[j]);
        }
        assert forall|k: int| i - n - 1 <= k < j - n - 1 implies (#[trigger] rest[k]) != '/'
            && rest[k] != '\\' by {
            assert(s[k + n + 1] == rest[k]);
        }
        let p = lemma_standing_is_segment(rest, i - n - 1, j - n - 1);
        assert(rest.subrange(i - n - 1, j - n - 1) =~= s.subrange(i, j));
        assert(segments(s)[p + 1] == segments(rest)[p]);
        p + 1
    }
}

proof fn lemma_leads_out(s: Seq<char>, i: int, j: int)
    requires
        0 <= i <= j <= s.len(),
    ensures
        leads_out(s.subrange(i, j)) == is_way_out(s, i, j),
{
    let part = s.subrange(i, j);
    if j == i + 2 && s[i] == '.' && s[i + 1] == '.' {
        assert(part =~= seq!['.', '.']);
    }
    let up = seq!['.', '.'];
    assert(up.len() == 2 && up[0] == '.' && up[1] == '.');
    if j >= i + 2 {
        assert(part[0] == s[i]);
        assert(part[1] == s[i + 1]);
    }
}

/// A path is refused just where it has no character, is longer than 16 KiB, or has
/// a component of two dots or one that starts with a letter and a colon; and the
/// reason given is the right one.
pub proof fn law_only_ways_out_are_refused(wire: Seq<char>)
    ensures
        destination(wire) == Err::<Seq<Seq<char>>, _>(PathError::BadLength) <==> wire.len() == 0
            || encode_utf8(wire).len() > 16384,
        destination(wire) == Err::<Seq<Seq<char>>, _>(PathError::Escape) <==> wire.len() > 0
            && encode_utf8(wire).len() <= 16384 && exists|i: int, j: int|
            #[trigger] stands_between(wire, i, j) && is_way_out(wire, i, j),
{
    if climbs(wire) {
        let p = choose|p: int|
            0 <= p < segments(wire).len() && leads_out(#[trigger] segments(wire)[p]);
        let (i, j) = lemma_segment_stands(wire, p);
        lemma_leads_out(wire, i, j);
        assert(stands_between(wire, i, j) && is_way_out(wire, i, j));
    }
    if exists|i: int, j: int| #[trigger] stands_between(wire, i, j) && is_way_out(wire, i, j) {
        let (i, j) = choose|i: int, j: int| #[trigger]
            stands_between(wire, i, j) && is_way_out(wire, i, j);
        let p = lemma_standing_is_segment(wire, i, j);
        lemma_leads_out(wire, i, j);
        assert(leads_out(segments(wire)[p]));
    }
}

#[verifier::spinoff_prover]
proof fn lemma_segments_of_two(a: Seq<char>, mark: char, b: Seq<char>)
    requires
        mark == '/' || mark == '\\',
    ensures
        segments(a + seq![mark] + b) == segments(a) + segments(b),
    decreases a.len(),
{
    let s = a + seq![mark] + b;
    lemma_segment_len(a);
    lemma_segment_len(s);
    let n = segment_len(a) as int;
    let after = a.skip(n) + seq![mark] + b;
    assert(s =~= a.take(n) + after);
    assert forall|i: int| 0 <= i < a.take(n).len() implies !parts(#[trigger] a.take(n)[i]) by {
        assert(!parts(a[i]));
    }
    assert(parts(after[0]));
    lemma_segment_len_of_part(a.take(n), after);
    if n >= a.len() {
        assert(s.take(n) =~= a);
        assert(s.skip(n + 1) =~= b);
        assert(segments(s) =~= segments(a) + segments(b));
    } else {
        let rest = a.skip(n + 1);
        assert(s.skip(n + 1) =~= rest + seq![mark] + b);
        assert(s.take(n) =~= a.take(n));
        lemma_segments_of_two(rest, mark, b);
        assert(segments(s) =~= segments(a) + segments(b));
    }
}

/// A path leads down its first part and then down its second, whichever of the
/// marks stands between them; a mark before or behind a path changes nothing.
#[verifier::spinoff_prover]
pub proof fn law_paths_lead_on(a: Seq<char>, mark: char, b: Seq<char>)
    requires
        mark == '/' || mark == '\\',
        encode_utf8(a + seq![mark] + b).len() <= 16384,
        destination(a) is Ok || a.len() == 0,
        destination(b) is Ok || b.len() == 0,
    ensures
        destination(a + seq![mark] + b) == Ok::<_, PathError>(
            (if a.len() == 0 {
                Seq::empty()
            } else {
                destination(a)->Ok_0
            }) + (if b.len() == 0 {
                Seq::empty()
            } else {
                destination(b)->Ok_0
            }),
        ),
{
    lemma_where_it_leads(a);
    lemma_where_it_leads(b);
    lemma_no_climb_of_two(a, mark, b);
    lemma_components_of_two(a, mark, b);
    assert((a + seq![mark] + b).len() > 0);
}

/// Where a path that is taken leads; one of no characters leads nowhere.
#[verifier::spinoff_prover]
proof fn lemma_where_it_leads(a: Seq<char>)
    requires
        destination(a) is Ok || a.len() == 0,
    ensures
        !climbs(a),
        components(a) == if a.len() == 0 {
            Seq::empty()
        } else {
            destination(a)->Ok_0
        },
{
    lemma_nothing_leads_nowhere(a);
    lemma_no_components(a);
}

#[verifier::spinoff_prover]
proof fn lemma_no_climb_of_two(a: Seq<char>, mark: char, b: Seq<char>)
    requires
        mark == '/' || mark == '\\',
        !climbs(a),
        !climbs(b),
    ensures
        !climbs(a + seq![mark] + b),
{
    let s = a + seq![mark] + b;
    lemma_segments_of_two(a, mark, b);
    if climbs(s) {
        let p = choose|p: int| 0 <= p < segments(s).len() && leads_out(#[trigger] segments(s)[p]);
        if p < segments(a).len() {
            assert(segments(a)[p] == segments(s)[p]);
        } else {
            let q = p - segments(a).len();
            assert(segments(b)[q] == segments(s)[p]);
        }
    }
}

#[verifier::spinoff_prover]
proof fn lemma_components_of_two(a: Seq<char>, mark: char, b: Seq<char>)
    requires
        mark == '/' || mark == '\\',
    ensures
        components(a + seq![mark] + b) == components(a) + components(b),
{
    let keep = |p: Seq<char>| names_something(p);
    lemma_segments_of_two(a, mark, b);
    Seq::filter_distributes_over_add(segments(a), segments(b), keep);
}

#[verifier::spinoff_prover]
proof fn lemma_nothing_leads_nowhere(a: Seq<char>)
    ensures
        a.len() == 0 ==> !climbs(a),
{
    if a.len() == 0 {
        assert(segments(a) =~= seq![a]);
        assert(!leads_out(a));
    }
}

#[verifier::spinoff_prover]
proof fn lemma_no_components(a: Seq<char>)
    ensures
        a.len() == 0 ==> components(a) == Seq::<Seq<char>>::empty(),
{
    if a.len() == 0 {
        let keep = |p: Seq<char>| names_something(p);
        let all = seq![a];
        assert(segments(a) =~= all);
        reveal_with_fuel(Seq::filter, 2);
        assert(all.drop_last() =~= Seq::empty());
        assert(!keep(all.last()));
        assert(all.filter(keep) =~= Seq::empty());
    }
}

/// The two marks mean the same: a path leads to the same place, or is refused for
/// the same reason, before and after its backslashes were turned.
pub proof fn law_wire_form_leads_to_the_same_place(rel: Seq<char>)
    requires
        encode_utf8(rel).len() <= 16384,
        encode_utf8(wire_form(rel)).len() <= 16384,
    ensures
        destination(wire_form(rel)) == destination(rel),
{
    lemma_segments_of_wire_form(rel);
}

proof fn lemma_segments_of_wire_form(s: Seq<char>)
    ensures
        segments(wire_form(s)) == segments(s),
    decreases s.len(),
{
    let t = wire_form(s);
    lemma_segment_len(s);
    let n = segment_len(s) as int;
    let part = s.take(n);
    assert forall|i: int| 0 <= i < part.len() implies !parts(#[trigger] part[i]) by {
        assert(!parts(s[i]));
    }
    assert(t =~= part + t.skip(n)) by {
        assert forall|i: int| 0 <= i < n implies t[i] == part[i] by {
            assert(!parts(s[i]));
        }
    }
    lemma_segment_len_of_part(part, t.skip(n));
    if n < s.len() {
        assert(t.skip(n + 1) =~= wire_form(s.skip(n + 1)));
        lemma_segments_of_wire_form(s.skip(n + 1));
        assert(t.take(n) =~= s.take(n));
    } else {
        assert(t =~= s);
    }
}

/// A path of one component leads to what it names, and one dot leads to where it
/// starts from.
pub proof fn law_one_component_names_itself(part: Seq<char>)
    requires
        part.len() > 0,
        stands_between(part, 0, part.len() as int),
        !is_way_out(part, 0, part.len() as int),
        encode_utf8(part).len() <= 16384,
    ensures
        destination(part) == Ok::<_, PathError>(
            if part.len() == 1 && part[0] == '.' {
                Seq::empty()
            } else {
                seq![part]
            },
        ),
{
    let n = part.len() as int;
    let all = seq![part];
    let keep = |p: Seq<char>| names_something(p);
    assert forall|i: int| 0 <= i < part.len() implies !parts(#[trigger] part[i]) by {}
    lemma_segment_len_of_part(part, Seq::empty());
    assert(part + Seq::<char>::empty() =~= part);
    assert(segments(part) =~= all);
    lemma_leads_out(part, 0, n);
    assert(part.subrange(0, n) =~= part);
    assert(!climbs(part));
    reveal_with_fuel(Seq::filter, 2);
    assert(all.drop_last() =~= Seq::empty());
    if part.len() == 1 && part[0] == '.' {
        assert(part =~= seq!['.']);
        assert(!keep(all.last()));
        assert(all.filter(keep) =~= Seq::empty());
    } else {
        assert(part != seq!['.']) by {
            assert(seq!['.'][0] == '.');
        }
        assert(keep(all.last()));
        assert(all.filter(keep) =~= all);
    }
}

} // verus!

//! A stable sort by rank and name.

use vstd::prelude::*;
use vstd::seq_lib::lemma_multiset_commutative;

use crate::text::{
    lemma_text_le_antisymmetric,
    lemma_text_le_total,
    lemma_text_le_transitive,
    same_text,
    text_before,
    text_le,
};

verus! {

/// What items are sorted by: those of lower rank first, and those of one rank by
/// name.
pub trait Keyed: Sized {
    spec fn key(&self) -> (bool, Seq<char>);
}

/// Items that can be asked for what they are sorted by.
pub trait Named: Keyed {
    fn rank(&self) -> (r: bool)
        ensures
            r == self.key().0,
    ;

    fn name(&self) -> (r: &str)
        ensures
            r@ == self.key().1,
    ;
}

/// Whether an item with key `a` may stand before one with key `b`.
pub open spec fn key_le(a: (bool, Seq<char>), b: (bool, Seq<char>)) -> bool {
    (!a.0 && b.0) || (a.0 == b.0 && text_le(a.1, b.1))
}

/// Whether no item stands before one that should stand before it.
pub open spec fn in_order<T: Keyed>(s: Seq<T>) -> bool {
    forall|i: int, j: int| 0 <= i <= j < s.len() ==> key_le(#[trigger] s[i].key(), #[trigger] s[j].key())
}

/// The items of one key, in the order in which they stand.
pub open spec fn with_key<T: Keyed>(s: Seq<T>, k: (bool, Seq<char>)) -> Seq<T> {
    s.filter(|x: T| x.key() == k)
}

/// Whether `r` holds the items of `s`, those of each key in the same order.
pub open spec fn rearranged<T: Keyed>(s: Seq<T>, r: Seq<T>) -> bool {
    &&& s.to_multiset() == r.to_multiset()
    &&& forall|k: (bool, Seq<char>)| #[trigger] with_key(r, k) == with_key(s, k)
}

pub proof fn lemma_key_le_total(a: (bool, Seq<char>), b: (bool, Seq<char>))
    ensures
        key_le(a, b) || key_le(b, a),
{
    lemma_text_le_total(a.1, b.1);
}

pub proof fn lemma_key_le_transitive(
    a: (bool, Seq<char>),
    b: (bool, Seq<char>),
    c: (bool, Seq<char>),
)
    requires
        key_le(a, b),
        key_le(b, c),
    ensures
        key_le(a, c),
{
    if a.0 == b.0 && b.0 == c.0 {
        lemma_text_le_transitive(a.1, b.1, c.1);
    }
}

pub proof fn lemma_key_le_antisymmetric(a: (bool, Seq<char>), b: (bool, Seq<char>))
    requires
        key_le(a, b),
        key_le(b, a),
    ensures
        a == b,
{
    lemma_text_le_antisymmetric(a.1, b.1);
}

fn may_precede<T: Named>(a: &T, b: &T) -> (r: bool)
    ensures
        r == key_le(a.key(), b.key()),
{
    let (x, y): (bool, bool) = (a.rank(), b.rank());
    (!x && y) || (x == y && text_before(a.name(), b.name()))
}

proof fn lemma_with_key_add<T: Keyed>(a: Seq<T>, b: Seq<T>, k: (bool, Seq<char>))
    ensures
        with_key(a + b, k) == with_key(a, k) + with_key(b, k),
{
    Seq::filter_distributes_over_add(a, b, |x: T| x.key() == k);
}

proof fn lemma_with_key_one<T: Keyed>(x: T, k: (bool, Seq<char>))
    ensures
        with_key(seq![x], k) == (if x.key() == k {
            seq![x]
        } else {
            Seq::empty()
        }),
{
    reveal_with_fuel(Seq::filter, 2);
    assert(seq![x].drop_last() =~= Seq::empty());
    assert(with_key(seq![x], k) =~= (if x.key() == k {
        seq![x]
    } else {
        Seq::empty()
    }));
}

proof fn lemma_with_key_none<T: Keyed>(s: Seq<T>, k: (bool, Seq<char>))
    requires
        forall|i: int| 0 <= i < s.len() ==> (#[trigger] s[i]).key() != k,
    ensures
        with_key(s, k) == Seq::<T>::empty(),
    decreases s.len(),
{
    reveal(Seq::filter);
    if s.len() > 0 {
        lemma_with_key_none(s.drop_last(), k);
    }
    assert(with_key(s, k) =~= Seq::empty());
}

/// The last item of the first part may go behind the second part where it stands
/// behind all of it.
proof fn lemma_move_last<T: Keyed>(a: Seq<T>, b: Seq<T>, o: Seq<T>)
    requires
        a.len() > 0,
        forall|i: int| 0 <= i < b.len() ==> (#[trigger] b[i]).key() != a.last().key(),
    ensures
        rearranged(a + b + o, a.drop_last() + b + (seq![a.last()] + o)),
{
    let x = a.last();
    let s = a + b + o;
    let r = a.drop_last() + b + (seq![x] + o);
    assert(a =~= a.drop_last() + seq![x]);
    assert forall|k: (bool, Seq<char>)| #[trigger] with_key(r, k) == with_key(s, k) by {
        lemma_with_key_add(a + b, o, k);
        lemma_with_key_add(a, b, k);
        lemma_with_key_add(a.drop_last(), seq![x], k);
        lemma_with_key_add(a.drop_last() + b, seq![x] + o, k);
        lemma_with_key_add(a.drop_last(), b, k);
        lemma_with_key_add(seq![x], o, k);
        lemma_with_key_one(x, k);
        if x.key() == k {
            lemma_with_key_none(b, k);
        }
        assert(with_key(r, k) =~= with_key(s, k));
    }
    lemma_multiset_commutative(a + b, o);
    lemma_multiset_commutative(a, b);
    lemma_multiset_commutative(a.drop_last(), seq![x]);
    lemma_multiset_commutative(a.drop_last() + b, seq![x] + o);
    lemma_multiset_commutative(a.drop_last(), b);
    lemma_multiset_commutative(seq![x], o);
    assert(s.to_multiset() =~= r.to_multiset());
}

/// Merges two ordered runs; of items with one key those of `a` come first.
fn merge<T: Named>(a: Vec<T>, b: Vec<T>) -> (r: Vec<T>)
    requires
        in_order(a@),
        in_order(b@),
    ensures
        in_order(r@),
        rearranged(a@ + b@, r@),
{
    let ghost all = a@ + b@;
    let mut left = a;
    let mut right = b;
    let mut out: Vec<T> = Vec::new();
    assert(left@ + right@ + out@.reverse() =~= all);
    while left.len() > 0 || right.len() > 0
        invariant
            in_order(left@),
            in_order(right@),
            in_order(out@.reverse()),
            forall|i: int, j: int|
                0 <= i < left@.len() && 0 <= j < out@.len() ==> key_le(
                    (#[trigger] left@[i]).key(),
                    (#[trigger] out@[j]).key(),
                ),
            forall|i: int, j: int|
                0 <= i < right@.len() && 0 <= j < out@.len() ==> key_le(
                    (#[trigger] right@[i]).key(),
                    (#[trigger] out@[j]).key(),
                ),
            rearranged(all, left@ + right@ + out@.reverse()),
        decreases left@.len() + right@.len(),
    {
        let take_right: bool = if left.len() == 0 {
            true
        } else if right.len() == 0 {
            false
        } else {
            may_precede(&left[left.len() - 1], &right[right.len() - 1])
        };
        let ghost l0 = left@;
        let ghost r0 = right@;
        let ghost o0 = out@;
        let next: Option<T> = if take_right {
            right.pop()
        } else {
            left.pop()
        };
        if let Some(x) = next {
            out.push(x);
            proof {
                assert(out@.reverse() =~= seq![x] + o0.reverse());
                if take_right {
                    assert(r0 =~= right@ + seq![x]);
                    assert(left@ + right@ + out@.reverse() =~= l0 + r0 + o0.reverse());
                } else {
                    if r0.len() > 0 {
                        let y = r0.last();
                        lemma_key_le_total(x.key(), y.key());
                        assert forall|i: int| 0 <= i < r0.len() implies key_le(
                            (#[trigger] r0[i]).key(),
                            x.key(),
                        ) && r0[i].key() != x.key() by {
                            lemma_key_le_transitive(r0[i].key(), y.key(), x.key());
                        }
                    }
                    lemma_move_last(l0, r0, o0.reverse());
                }
                assert forall|i: int, j: int| 0 <= i < left@.len() && 0 <= j < out@.len() implies key_le(
                    (#[trigger] left@[i]).key(),
                    (#[trigger] out@[j]).key(),
                ) by {
                    if j == o0.len() && take_right {
                        lemma_key_le_transitive(left@[i].key(), l0.last().key(), x.key());
                    }
                }
                assert forall|i: int, j: int|
                    0 <= i <= j < out@.reverse().len() implies key_le(
                    #[trigger] out@.reverse()[i].key(),
                    #[trigger] out@.reverse()[j].key(),
                ) by {
                    if i == 0 {
                        if j == 0 {
                            lemma_key_le_total(x.key(), x.key());
                        } else {
                            assert(out@.reverse()[j] == o0[o0.len() - j]);
                        }
                    } else {
                        assert(out@.reverse()[i] == o0.reverse()[i - 1]);
                        assert(out@.reverse()[j] == o0.reverse()[j - 1]);
                    }
                }
            }
        }
    }
    assert(left@ + right@ + out@.reverse() =~= out@.reverse());
    reversed(out)
}

/// The items from the last to the first.
pub fn reversed<T>(v: Vec<T>) -> (r: Vec<T>)
    ensures
        r@ == v@.reverse(),
{
    let ghost back = v@.reverse();
    let mut left = v;
    let mut r: Vec<T> = Vec::new();
    assert(r@ + left@.reverse() =~= back);
    while left.len() > 0
        invariant
            r@ + left@.reverse() == back,
        decreases left@.len(),
    {
        let ghost l0 = left@;
        let ghost r0 = r@;
        if let Some(x) = left.pop() {
            r.push(x);
            proof {
                assert(l0.reverse() =~= seq![x] + left@.reverse());
                assert(r@ + left@.reverse() =~= r0 + l0.reverse());
            }
        }
    }
    assert(r@ =~= back);
    r
}

proof fn lemma_rearranged_parts<T: Keyed>(a: Seq<T>, b: Seq<T>, c: Seq<T>, d: Seq<T>)
    requires
        rearranged(a, c),
        rearranged(b, d),
    ensures
        rearranged(a + b, c + d),
{
    lemma_multiset_commutative(a, b);
    lemma_multiset_commutative(c, d);
    assert forall|k: (bool, Seq<char>)| #[trigger] with_key(c + d, k) == with_key(a + b, k) by {
        lemma_with_key_add(a, b, k);
        lemma_with_key_add(c, d, k);
    }
}

/// Sorts by rank and name; items of one key keep their order.
pub fn sort<T: Named>(v: Vec<T>) -> (r: Vec<T>)
    ensures
        in_order(r@),
        rearranged(v@, r@),
    decreases v@.len(),
{
    let n: usize = v.len();
    if n <= 1 {
        proof {
            if n == 1 {
                lemma_key_le_total(v@[0].key(), v@[0].key());
            }
        }
        return v;
    }
    let ghost all = v@;
    let mut left = v;
    let right = left.split_off(n / 2);
    assert(left@ + right@ =~= all);
    let ghost l0 = left@;
    let ghost r0 = right@;
    let a = sort(left);
    let b = sort(right);
    proof {
        lemma_rearranged_parts(l0, r0, a@, b@);
    }
    merge(a, b)
}

/// An order of items is the same order of what is seen of them.
pub proof fn lemma_rearranged_seen<T: Keyed, U: Keyed>(s: Seq<T>, r: Seq<T>, f: spec_fn(T) -> U)
    requires
        rearranged(s, r),
        forall|x: T| (#[trigger] f(x)).key() == x.key(),
    ensures
        rearranged(s.map_values(f), r.map_values(f)),
{
    assert forall|k: (bool, Seq<char>)| #[trigger]
        with_key(r.map_values(f), k) == with_key(s.map_values(f), k) by {
        lemma_with_key_seen(s, f, k);
        lemma_with_key_seen(r, f, k);
        assert(with_key(r, k) == with_key(s, k));
    }
    lemma_multiset_seen(s, r, f);
}

proof fn lemma_with_key_seen<T: Keyed, U: Keyed>(
    s: Seq<T>,
    f: spec_fn(T) -> U,
    k: (bool, Seq<char>),
)
    requires
        forall|x: T| (#[trigger] f(x)).key() == x.key(),
    ensures
        with_key(s.map_values(f), k) == with_key(s, k).map_values(f),
    decreases s.len(),
{
    reveal(Seq::filter);
    if s.len() > 0 {
        lemma_with_key_seen(s.drop_last(), f, k);
        assert(s.map_values(f).drop_last() =~= s.drop_last().map_values(f));
        assert(s.map_values(f).last() == f(s.last()));
    }
    assert(with_key(s.map_values(f), k) =~= with_key(s, k).map_values(f));
}

proof fn lemma_multiset_seen<T, U>(s: Seq<T>, r: Seq<T>, f: spec_fn(T) -> U)
    requires
        s.to_multiset() == r.to_multiset(),
    ensures
        s.map_values(f).to_multiset() == r.map_values(f).to_multiset(),
    decreases s.len(),
{
    s.to_multiset_ensures();
    r.to_multiset_ensures();
    if s.len() == 0 {
        assert(s.map_values(f) =~= r.map_values(f));
    } else {
        let x = s.last();
        assert(s.contains(x));
        assert(r.to_multiset().count(x) > 0);
        let j = choose|j: int| 0 <= j < r.len() && r[j] == x;
        let s1 = s.drop_last();
        let r1 = r.remove(j);
        assert(s =~= s1.push(x));
        s1.to_multiset_ensures();
        assert(s1.to_multiset() =~= s.to_multiset().remove(x));
        assert(r1.to_multiset() =~= r.to_multiset().remove(x));
        lemma_multiset_seen(s1, r1, f);
        assert(s.map_values(f) =~= s1.map_values(f).push(f(x)));
        assert(r.map_values(f).remove(j) =~= r1.map_values(f));
        s1.map_values(f).to_multiset_ensures();
        r.map_values(f).to_multiset_ensures();
        assert(r.map_values(f)[j] == f(x));
        assert(r.map_values(f).contains(f(x)));
        assert(r.map_values(f).to_multiset() =~= r1.map_values(f).to_multiset().insert(f(x)));
        assert(s.map_values(f).to_multiset() =~= s1.map_values(f).to_multiset().insert(f(x)));
    }
}

/// Two orders of the same items that both put items in order, and keep those of
/// one key as they were, are one and the same.
pub proof fn law_sorting_is_determined<T: Keyed>(s: Seq<T>, p: Seq<T>, q: Seq<T>)
    requires
        in_order(p),
        in_order(q),
        rearranged(s, p),
        rearranged(s, q),
    ensures
        p == q,
    decreases p.len(),
{
    s.to_multiset_ensures();
    p.to_multiset_ensures();
    q.to_multiset_ensures();
    if p.len() > 0 {
        let x = p.last();
        let y = q.last();
        // The last items have one key: each is the largest.
        assert(p.to_multiset().count(y) > 0) by {
            assert(q.contains(y));
        }
        assert(q.to_multiset().count(x) > 0) by {
            assert(p.contains(x));
        }
        let i = choose|i: int| 0 <= i < p.len() && p[i] == y;
        let j = choose|j: int| 0 <= j < q.len() && q[j] == x;
        assert(key_le(p[i].key(), p[p.len() - 1].key()));
        assert(key_le(q[j].key(), q[q.len() - 1].key()));
        lemma_key_le_antisymmetric(x.key(), y.key());
        let k = x.key();
        assert(with_key(p, k).last() == x && with_key(q, k).last() == y) by {
            reveal(Seq::filter);
        }
        assert(with_key(p, k) == with_key(q, k));
        let p1 = p.drop_last();
        let q1 = q.drop_last();
        assert(p =~= p1 + seq![x]);
        assert(q =~= q1 + seq![x]);
        assert forall|m: (bool, Seq<char>)| #[trigger] with_key(q1, m) == with_key(p1, m) by {
            lemma_with_key_add(p1, seq![x], m);
            lemma_with_key_add(q1, seq![x], m);
            lemma_with_key_one(x, m);
            assert(with_key(p, m) == with_key(s, m));
            assert(with_key(q, m) == with_key(s, m));
            let t = with_key(seq![x], m);
            assert((with_key(p1, m) + t).take(with_key(p1, m).len() as int) =~= with_key(p1, m));
            assert((with_key(q1, m) + t).take(with_key(q1, m).len() as int) =~= with_key(q1, m));
        }
        lemma_multiset_commutative(p1, seq![x]);
        lemma_multiset_commutative(q1, seq![x]);
        assert(p1.to_multiset() =~= p.to_multiset().sub(seq![x].to_multiset()));
        assert(q1.to_multiset() =~= q.to_multiset().sub(seq![x].to_multiset()));
        assert forall|i: int, j: int| 0 <= i <= j < p1.len() implies key_le(
            #[trigger] p1[i].key(),
            #[trigger] p1[j].key(),
        ) by {
            assert(key_le(p[i].key(), p[j].key()));
        }
        assert forall|i: int, j: int| 0 <= i <= j < q1.len() implies key_le(
            #[trigger] q1[i].key(),
            #[trigger] q1[j].key(),
        ) by {
            assert(key_le(q[i].key(), q[j].key()));
        }
        law_sorting_is_determined(p1, p1, q1);
    } else {
        assert(p =~= q);
    }
}

/// Of neighbours with one key the first.
pub open spec fn first_of_each<T: Keyed>(s: Seq<T>) -> Seq<T>
    decreases s.len(),
{
    if s.len() == 0 {
        Seq::empty()
    } else if s.len() > 1 && s[s.len() - 2].key() == s.last().key() {
        first_of_each(s.drop_last())
    } else {
        first_of_each(s.drop_last()).push(s.last())
    }
}

/// Drops each item that has the key of the one before it.
pub fn without_doubles<T: Named>(v: Vec<T>) -> (r: Vec<T>)
    ensures
        r@ == first_of_each(v@),
{
    let ghost all = v@;
    let mut left = v;
    let mut out: Vec<T> = Vec::new();
    assert(first_of_each(left@) + out@.reverse() =~= first_of_each(all));
    while left.len() > 0
        invariant
            first_of_each(left@) + out@.reverse() == first_of_each(all),
        decreases left@.len(),
    {
        let ghost l0 = left@;
        let ghost o0 = out@;
        if let Some(x) = left.pop() {
            assert(left@ =~= l0.drop_last());
            let n: usize = left.len();
            let double: bool = n > 0 && left[n - 1].rank() == x.rank() && same_text(
                left[n - 1].name(),
                x.name(),
            );
            assert(double == (l0.len() > 1 && l0[l0.len() - 2].key() == x.key()));
            if !double {
                out.push(x);
                assert(out@.reverse() =~= seq![x] + o0.reverse());
                assert(first_of_each(left@) + out@.reverse() =~= first_of_each(l0)
                    + o0.reverse());
            }
        }
    }
    assert(first_of_each(left@) + out@.reverse() =~= out@.reverse());
    reversed(out)
}

/// In an ordered list of which the doubles were dropped no key stands twice.
pub proof fn law_no_key_stands_twice<T: Keyed>(s: Seq<T>, i: int, j: int)
    requires
        in_order(s),
        0 <= i < j < first_of_each(s).len(),
    ensures
        key_le(first_of_each(s)[i].key(), first_of_each(s)[j].key()),
        first_of_each(s)[i].key() != first_of_each(s)[j].key(),
    decreases s.len(),
{
    let before = s.drop_last();
    let r0 = first_of_each(before);
    assert(in_order(before)) by {
        assert forall|a: int, b: int| 0 <= a <= b < before.len() implies key_le(
            #[trigger] before[a].key(),
            #[trigger] before[b].key(),
        ) by {
            assert(key_le(s[a].key(), s[b].key()));
        }
    }
    if j < r0.len() {
        law_no_key_stands_twice(before, i, j);
    } else {
        lemma_first_of_each_in(before, i);
        let k = choose|k: int| 0 <= k < before.len() && before[k] == r0[i];
        assert(s.len() > 1);
        let x = s.last();
        let y = s[s.len() - 2];
        assert(key_le(s[k].key(), y.key()));
        assert(key_le(y.key(), s[s.len() - 1].key()));
        lemma_key_le_transitive(s[k].key(), y.key(), x.key());
        if s[k].key() == x.key() {
            lemma_key_le_antisymmetric(y.key(), x.key());
        }
    }
}

pub proof fn lemma_first_of_each_in<T: Keyed>(s: Seq<T>, i: int)
    requires
        0 <= i < first_of_each(s).len(),
    ensures
        exists|k: int| 0 <= k < s.len() && s[k] == first_of_each(s)[i],
    decreases s.len(),
{
    let before = s.drop_last();
    if i < first_of_each(before).len() {
        lemma_first_of_each_in(before, i);
        let k = choose|k: int| 0 <= k < before.len() && before[k] == first_of_each(before)[i];
        assert(s[k] == first_of_each(s)[i]);
    } else {
        assert(s[s.len() - 1] == first_of_each(s)[i]);
    }
}

/// No key is lost where doubles are dropped.
pub proof fn law_no_key_is_lost<T: Keyed>(s: Seq<T>, k: int)
    requires
        0 <= k < s.len(),
    ensures
        exists|i: int|
            0 <= i < first_of_each(s).len() && (#[trigger] first_of_each(s)[i]).key() == s[k].key(),
    decreases s.len(),
{
    let before = s.drop_last();
    let r0 = first_of_each(before);
    let r = first_of_each(s);
    if k < before.len() {
        law_no_key_is_lost(before, k);
        let i = choose|i: int| 0 <= i < r0.len() && (#[trigger] r0[i]).key() == before[k].key();
        assert(r[i] == r0[i]);
    } else if s.len() > 1 && s[s.len() - 2].key() == s.last().key() {
        law_no_key_is_lost(before, s.len() - 2);
        let i = choose|i: int|
            0 <= i < r0.len() && (#[trigger] r0[i]).key() == before[s.len() - 2].key();
        assert(r[i].key() == s[k].key());
    } else {
        assert(r[r.len() - 1].key() == s[k].key());
    }
}

/// Where two items that a filter keeps stood before, in the same order.
pub proof fn lemma_filter_places<T>(s: Seq<T>, keep: spec_fn(T) -> bool, i: int, j: int) -> (r: (
    int,
    int,
))
    requires
        0 <= i < j < s.filter(keep).len(),
    ensures
        0 <= r.0 < r.1 < s.len(),
        s[r.0] == s.filter(keep)[i],
        s[r.1] == s.filter(keep)[j],
    decreases s.len(),
{
    reveal(Seq::filter);
    let before = s.drop_last();
    let f0 = before.filter(keep);
    if j < f0.len() {
        lemma_filter_places(before, keep, i, j)
    } else {
        assert(f0.contains(f0[i]));
        before.lemma_filter_contains_rev(keep, f0[i]);
        let a = choose|a: int| 0 <= a < before.len() && before[a] == f0[i];
        (a, s.len() - 1)
    }
}

/// Of the items of one key, the first is kept.
pub proof fn law_the_first_of_each_is_kept<T: Keyed>(s: Seq<T>, m: int)
    requires
        0 <= m < s.len(),
        m > 0 ==> s[m - 1].key() != s[m].key(),
    ensures
        first_of_each(s).contains(s[m]),
    decreases s.len(),
{
    let before = s.drop_last();
    let r = first_of_each(before);
    if m == s.len() - 1 {
        assert(first_of_each(s) == r.push(s.last()));
        assert(first_of_each(s)[r.len() as int] == s[m]);
    } else {
        law_the_first_of_each_is_kept(before, m);
        let i = choose|i: int| 0 <= i < r.len() && r[i] == s[m];
        assert(first_of_each(s)[i] == s[m]);
    }
}

/// Items of the lower rank come first; those of one rank come by their names.
pub proof fn law_ranks_come_before_names(a: Seq<char>, b: Seq<char>, rank: bool)
    ensures
        key_le((false, a), (true, b)),
        !key_le((true, a), (false, b)),
        key_le((rank, a), (rank, b)) <==> text_le(a, b),
{
}

} // verus!

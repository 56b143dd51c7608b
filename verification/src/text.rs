//! Text as sequences of characters: the small string operations that the
//! rest of the library is built on.

use vstd::prelude::*;
use vstd::string::*;
use vstd::utf8::*;

verus! {

/// `String::push`: appends one character.
pub assume_specification[ String::push ](s: &mut String, c: char)
    ensures
        final(s)@ == old(s)@.push(c),
;

/// The characters of `s`.
pub fn chars_of(s: &str) -> (r: Vec<char>)
    ensures
        r@ == s@,
{
    let mut v: Vec<char> = Vec::new();
    for c in it: s.chars()
        invariant
            v@ == it.seq().take(it.index() as int),
            it.seq() == s@,
    {
        v.push(c);
    }
    v
}

/// The string made of the characters `v[from..to]`.
pub fn string_of(v: &Vec<char>, from: usize, to: usize) -> (r: String)
    requires
        from <= to <= v@.len(),
    ensures
        r@ == v@.subrange(from as int, to as int),
{
    let mut r = String::new();
    let mut i: usize = from;
    while i < to
        invariant
            from <= i <= to <= v@.len(),
            r@ == v@.subrange(from as int, i as int),
        decreases to - i,
    {
        r.push(v[i]);
        i = i + 1;
    }
    r
}

/// Whether two texts are the same.
pub fn same_text(a: &str, b: &str) -> (r: bool)
    ensures
        r == (a@ == b@),
{
    let x: &[u8] = a.as_bytes();
    let y: &[u8] = b.as_bytes();
    proof {
        encode_utf8_decode_utf8(a@);
        encode_utf8_decode_utf8(b@);
    }
    if x.len() != y.len() {
        return false;
    }
    let mut i: usize = 0;
    while i < x.len()
        invariant
            i <= x@.len(),
            x@.len() == y@.len(),
            x@ == encode_utf8(a@),
            y@ == encode_utf8(b@),
            forall|j: int| 0 <= j < i ==> x@[j] == y@[j],
        decreases x@.len() - i,
    {
        if x[i] != y[i] {
            return false;
        }
        i = i + 1;
    }
    assert(x@ =~= y@);
    true
}

/// `a` followed by `b`.
pub fn join_texts(a: &str, b: &str) -> (r: String)
    ensures
        r@ == a@ + b@,
{
    let mut r = a.to_owned();
    r.append(b);
    r
}

// ---------------------------------------------------------------------------
// White space
// ---------------------------------------------------------------------------

/// Whether `c` has the Unicode property `White_Space`.
pub open spec fn is_white(c: char) -> bool {
    let u = c as u32;
    ||| 0x9 <= u <= 0xD
    ||| u == 0x20
    ||| u == 0x85
    ||| u == 0xA0
    ||| u == 0x1680
    ||| 0x2000 <= u <= 0x200A
    ||| u == 0x2028
    ||| u == 0x2029
    ||| u == 0x202F
    ||| u == 0x205F
    ||| u == 0x3000
}

/// Whether `c` is white space.
pub fn white(c: char) -> (r: bool)
    ensures
        r == is_white(c),
{
    let u: u32 = c as u32;
    (0x9 <= u && u <= 0xD) || u == 0x20 || u == 0x85 || u == 0xA0 || u == 0x1680 || (0x2000 <= u
        && u <= 0x200A) || u == 0x2028 || u == 0x2029 || u == 0x202F || u == 0x205F || u == 0x3000
}

/// `s` without the white space at its start.
pub open spec fn without_leading_white(s: Seq<char>) -> Seq<char>
    decreases s.len(),
{
    if s.len() > 0 && is_white(s[0]) {
        without_leading_white(s.drop_first())
    } else {
        s
    }
}

/// `s` without the white space at its end.
pub open spec fn without_trailing_white(s: Seq<char>) -> Seq<char>
    decreases s.len(),
{
    if s.len() > 0 && is_white(s.last()) {
        without_trailing_white(s.drop_last())
    } else {
        s
    }
}

/// `s` without the white space at either end.
pub open spec fn trimmed(s: Seq<char>) -> Seq<char> {
    without_trailing_white(without_leading_white(s))
}

/// `s` without the white space at either end.
pub fn trim(s: &str) -> (r: String)
    ensures
        r@ == trimmed(s@),
{
    let v: Vec<char> = chars_of(s);
    let mut from: usize = 0;
    assert(v@.subrange(0, v@.len() as int) =~= v@);
    while from < v.len() && white(v[from])
        invariant
            from <= v@.len(),
            without_leading_white(v@.subrange(from as int, v@.len() as int))
                == without_leading_white(v@),
        decreases v@.len() - from,
    {
        assert(v@.subrange(from as int, v@.len() as int).drop_first() =~= v@.subrange(
            from + 1,
            v@.len() as int,
        ));
        from = from + 1;
    }
    let ghost lead = v@.subrange(from as int, v@.len() as int);
    assert(without_leading_white(v@) == lead);
    let mut to: usize = v.len();
    while from < to && white(v[to - 1])
        invariant
            from <= to <= v@.len(),
            without_trailing_white(v@.subrange(from as int, to as int)) == without_trailing_white(
                lead,
            ),
        decreases to,
    {
        assert(v@.subrange(from as int, to as int).drop_last() =~= v@.subrange(
            from as int,
            to - 1,
        ));
        to = to - 1;
    }
    string_of(&v, from, to)
}

/// How many characters stand before the first white space of `s`.
pub open spec fn word_len(s: Seq<char>) -> nat
    decreases s.len(),
{
    if s.len() > 0 && !is_white(s[0]) {
        1 + word_len(s.drop_first())
    } else {
        0
    }
}

proof fn lemma_word_len(s: Seq<char>)
    ensures
        word_len(s) <= s.len(),
        forall|i: int| 0 <= i < word_len(s) ==> !is_white(#[trigger] s[i]),
        word_len(s) < s.len() ==> is_white(s[word_len(s) as int]),
    decreases s.len(),
{
    if s.len() > 0 && !is_white(s[0]) {
        lemma_word_len(s.drop_first());
        assert forall|i: int| 0 <= i < word_len(s) implies !is_white(#[trigger] s[i]) by {
            if i > 0 {
                assert(s[i] == s.drop_first()[i - 1]);
            }
        }
    }
}

proof fn lemma_without_leading_white(s: Seq<char>)
    ensures
        without_leading_white(s).len() <= s.len(),
        without_leading_white(s).len() > 0 ==> !is_white(without_leading_white(s)[0]),
    decreases s.len(),
{
    if s.len() > 0 && is_white(s[0]) {
        lemma_without_leading_white(s.drop_first());
    }
}

/// The words of `s`: its longest runs of characters that are not white space.
pub open spec fn words(s: Seq<char>) -> Seq<Seq<char>>
    decreases s.len(),
    via words_decreases
{
    let t = without_leading_white(s);
    if t.len() == 0 {
        Seq::empty()
    } else {
        seq![t.take(word_len(t) as int)] + words(t.skip(word_len(t) as int))
    }
}

#[via_fn]
proof fn words_decreases(s: Seq<char>) {
    lemma_without_leading_white(s);
    lemma_word_len(without_leading_white(s));
}

/// The characters of each string in `v`.
pub open spec fn texts(v: Seq<String>) -> Seq<Seq<char>> {
    v.map_values(|s: String| s@)
}

/// The words of `s`, in order.
pub fn split_words(s: &str) -> (r: Vec<String>)
    ensures
        texts(r@) == words(s@),
{
    let v: Vec<char> = chars_of(s);
    let mut out: Vec<String> = Vec::new();
    let mut i: usize = 0;
    assert(v@.skip(0) =~= v@);
    assert(texts(out@) + words(v@) =~= words(v@));
    loop
        invariant_except_break
            i <= v@.len(),
            texts(out@) + words(v@.skip(i as int)) == words(v@),
        ensures
            texts(out@) == words(v@),
        decreases v@.len() - i,
    {
        let ghost rest = v@.skip(i as int);
        let ghost i0 = i;
        while i < v.len() && white(v[i])
            invariant
                i0 <= i <= v@.len(),
                without_leading_white(v@.skip(i as int)) == without_leading_white(rest),
            decreases v@.len() - i,
        {
            assert(v@.skip(i as int).drop_first() =~= v@.skip(i + 1));
            i = i + 1;
        }
        let ghost t = v@.skip(i as int);
        assert(without_leading_white(rest) == t);
        if i == v.len() {
            assert(words(rest) =~= Seq::<Seq<char>>::empty());
            assert(texts(out@) + words(rest) =~= texts(out@));
            break;
        }
        let start: usize = i;
        proof {
            lemma_word_len(t);
        }
        while i < v.len() && !white(v[i])
            invariant
                start <= i <= v@.len(),
                t == v@.skip(start as int),
                (i - start) + word_len(v@.skip(i as int)) == word_len(t),
            decreases v@.len() - i,
        {
            assert(v@.skip(i as int).drop_first() =~= v@.skip(i + 1));
            i = i + 1;
        }
        assert(word_len(t) == i - start);
        assert(t.take(i - start) =~= v@.subrange(start as int, i as int));
        assert(t.skip(i - start) =~= v@.skip(i as int));
        let word = string_of(&v, start, i);
        let ghost before = texts(out@);
        out.push(word);
        assert(texts(out@) =~= before + seq![word@]);
        assert(texts(out@) + words(v@.skip(i as int)) =~= before + words(rest));
    }
    out
}

/// Whether a text is a word: not empty, and without white space.
pub open spec fn is_word(w: Seq<char>) -> bool {
    w.len() > 0 && forall|i: int| 0 <= i < w.len() ==> !is_white(#[trigger] w[i])
}

proof fn lemma_word_len_of_word(w: Seq<char>, after: Seq<char>)
    requires
        forall|i: int| 0 <= i < w.len() ==> !is_white(#[trigger] w[i]),
        after.len() > 0 ==> is_white(after[0]),
    ensures
        word_len(w + after) == w.len(),
    decreases w.len(),
{
    let s = w + after;
    if w.len() > 0 {
        assert(s[0] == w[0]);
        assert(s.drop_first() =~= w.drop_first() + after);
        assert forall|i: int| 0 <= i < w.drop_first().len() implies !is_white(
            #[trigger] w.drop_first()[i],
        ) by {
            assert(!is_white(w[i + 1]));
        }
        lemma_word_len_of_word(w.drop_first(), after);
    } else {
        assert(s =~= after);
    }
}

/// A word, a space and more text: the word, and the words of the rest.
pub proof fn lemma_words_of_word(w: Seq<char>, rest: Seq<char>)
    requires
        is_word(w),
    ensures
        words(w) == seq![w],
        words(w + seq![' '] + rest) == seq![w] + words(rest),
{
    let none: Seq<char> = Seq::empty();
    assert(w + none =~= w);
    lemma_word_len_of_word(w, none);
    assert(w.take(w.len() as int) =~= w);
    assert(w.skip(w.len() as int) =~= none);
    assert(words(none) =~= Seq::empty());
    assert(words(w) =~= seq![w]);
    let after = seq![' '] + rest;
    let s = w + seq![' '] + rest;
    assert(s =~= w + after);
    lemma_word_len_of_word(w, after);
    assert(!is_white(s[0]));
    assert(s.take(w.len() as int) =~= w);
    assert(s.skip(w.len() as int) =~= after);
    assert(after.drop_first() =~= rest);
    assert(without_leading_white(after) == without_leading_white(rest));
    assert(words(after) =~= words(rest));
}

/// The bytes of two texts, one behind the other.
pub proof fn lemma_encode_concat(a: Seq<char>, b: Seq<char>)
    ensures
        encode_utf8(a + b) == encode_utf8(a) + encode_utf8(b),
    decreases a.len(),
{
    if a.len() == 0 {
        assert(a + b =~= b);
        assert(encode_utf8(a) + encode_utf8(b) =~= encode_utf8(b));
    } else {
        lemma_encode_concat(a.drop_first(), b);
        assert((a + b).drop_first() =~= a.drop_first() + b);
        assert(encode_utf8(a + b) =~= encode_utf8(a) + encode_utf8(b));
    }
}

// ---------------------------------------------------------------------------
// Decimal numbers
// ---------------------------------------------------------------------------

/// The character of the decimal digit `d`.
pub open spec fn digit_char(d: nat) -> char {
    (48 + d) as char
}

/// `n` in decimal, without leading zeros.
pub open spec fn decimal(n: nat) -> Seq<char>
    decreases n,
{
    if n < 10 {
        seq![digit_char(n)]
    } else {
        decimal(n / 10).push(digit_char(n % 10))
    }
}

pub(crate) fn digit(d: u8) -> (c: char)
    requires
        d < 10,
    ensures
        c == digit_char(d as nat),
{
    (48 + d) as char
}

/// Appends `n` in decimal.
pub fn push_decimal(s: &mut String, n: u64)
    ensures
        final(s)@ == old(s)@ + decimal(n as nat),
    decreases n,
{
    if n >= 10 {
        push_decimal(s, n / 10);
    }
    s.push(digit((n % 10) as u8));
    assert(s@ =~= old(s)@ + decimal(n as nat));
}

/// Whether `c` is one of the digits 0 to 9.
pub open spec fn is_digit(c: char) -> bool {
    48 <= c as u32 <= 57
}

/// Whether `s` holds digits only.
pub open spec fn all_digits(s: Seq<char>) -> bool {
    forall|i: int| 0 <= i < s.len() ==> is_digit(#[trigger] s[i])
}

/// The number that a string of digits denotes.
pub open spec fn digits_value(s: Seq<char>) -> nat
    decreases s.len(),
{
    if s.len() == 0 {
        0
    } else {
        10 * digits_value(s.drop_last()) + ((s.last() as u32) - 48) as nat
    }
}

/// The 16-bit port number that `s` denotes: digits, after an optional plus
/// sign, of a value that fits.
pub open spec fn parsed_u16(s: Seq<char>) -> Option<u16> {
    let d = if s.len() > 0 && s[0] == '+' {
        s.drop_first()
    } else {
        s
    };
    if d.len() > 0 && all_digits(d) && digits_value(d) <= u16::MAX {
        Some(digits_value(d) as u16)
    } else {
        None
    }
}

proof fn lemma_digits_value_grows(s: Seq<char>, n: int)
    requires
        0 <= n <= s.len(),
    ensures
        digits_value(s.take(n)) <= digits_value(s),
    decreases s.len() - n,
{
    if n == s.len() {
        assert(s.take(n) =~= s);
    } else {
        lemma_digits_value_grows(s, n + 1);
        assert(s.take(n + 1).drop_last() =~= s.take(n));
    }
}

/// The port number that `s` denotes, if it denotes one.
pub fn parse_u16(s: &str) -> (r: Option<u16>)
    ensures
        r == parsed_u16(s@),
{
    let v: Vec<char> = chars_of(s);
    let from: usize = if v.len() > 0 && v[0] == '+' {
        1
    } else {
        0
    };
    let ghost d = v@.skip(from as int);
    assert(v@.skip(0) =~= v@);
    assert(v.len() > 0 ==> v@.skip(1) =~= v@.drop_first());
    if from == v.len() {
        return None;
    }
    let mut acc: u32 = 0;
    let mut i: usize = from;
    while i < v.len()
        invariant
            from <= i <= v@.len(),
            from <= 1,
            d == v@.skip(from as int),
            d.len() > 0,
            d == (if s@.len() > 0 && s@[0] == '+' {
                s@.drop_first()
            } else {
                s@
            }),
            acc == digits_value(d.take(i - from)),
            acc <= u16::MAX,
            forall|j: int| 0 <= j < i - from ==> is_digit(#[trigger] d[j]),
        decreases v@.len() - i,
    {
        let u: u32 = v[i] as u32;
        assert(d[i - from] == v@[i as int]);
        if u < 48 || u > 57 {
            assert(!is_digit(d[i - from]));
            return None;
        }
        assert(d.take(i - from + 1).drop_last() =~= d.take(i - from));
        acc = acc * 10 + (u - 48);
        if acc > 65535 {
            proof {
                lemma_digits_value_grows(d, i - from + 1);
            }
            return None;
        }
        i = i + 1;
    }
    assert(d.take(i - from) =~= d);
    Some(acc as u16)
}

proof fn lemma_digit_char(d: nat)
    requires
        d < 10,
    ensures
        is_digit(digit_char(d)),
        digit_char(d) as u32 == 48 + d,
{
}

/// Reading back a number written in decimal gives the number.
pub proof fn law_decimal_read_back(n: u16)
    ensures
        parsed_u16(decimal(n as nat)) == Some(n),
{
    lemma_decimal(n as nat);
    let s = decimal(n as nat);
    assert(is_digit(s[0]));
}

/// What `decimal` writes: digits only, at least one, of the given value.
pub proof fn lemma_decimal(n: nat)
    ensures
        decimal(n).len() > 0,
        all_digits(decimal(n)),
        digits_value(decimal(n)) == n,
    decreases n,
{
    lemma_digit_char(n % 10);
    if n < 10 {
        assert(decimal(n).drop_last() =~= Seq::<char>::empty());
        assert(digits_value(decimal(n).drop_last()) == 0);
    } else {
        lemma_decimal(n / 10);
        assert(decimal(n).drop_last() =~= decimal(n / 10));
    }
}

// ---------------------------------------------------------------------------
// Order
// ---------------------------------------------------------------------------

/// The order of texts: by the first character in which they differ, a proper
/// beginning of a text before the text itself. Characters are ordered by code
/// point, which orders texts as their UTF-8 bytes are ordered.
pub open spec fn text_le(a: Seq<char>, b: Seq<char>) -> bool
    decreases a.len(),
{
    if a.len() == 0 {
        true
    } else if b.len() == 0 {
        false
    } else if a[0] != b[0] {
        (a[0] as u32) < (b[0] as u32)
    } else {
        text_le(a.drop_first(), b.drop_first())
    }
}

pub proof fn lemma_text_le_total(a: Seq<char>, b: Seq<char>)
    ensures
        text_le(a, b) || text_le(b, a),
    decreases a.len(),
{
    if a.len() > 0 && b.len() > 0 {
        if a[0] == b[0] {
            lemma_text_le_total(a.drop_first(), b.drop_first());
        } else {
            char_u32_cast(a[0], a[0] as u32);
            char_u32_cast(b[0], b[0] as u32);
        }
    }
}

pub proof fn lemma_text_le_antisymmetric(a: Seq<char>, b: Seq<char>)
    requires
        text_le(a, b),
        text_le(b, a),
    ensures
        a == b,
    decreases a.len(),
{
    if a.len() > 0 && b.len() > 0 {
        lemma_text_le_antisymmetric(a.drop_first(), b.drop_first());
        assert(a =~= seq![a[0]] + a.drop_first());
        assert(b =~= seq![b[0]] + b.drop_first());
    } else {
        assert(a =~= b);
    }
}

pub proof fn lemma_text_le_transitive(a: Seq<char>, b: Seq<char>, c: Seq<char>)
    requires
        text_le(a, b),
        text_le(b, c),
    ensures
        text_le(a, c),
    decreases a.len(),
{
    if a.len() > 0 && b.len() > 0 && c.len() > 0 && a[0] == b[0] && b[0] == c[0] {
        lemma_text_le_transitive(a.drop_first(), b.drop_first(), c.drop_first());
    }
}

/// Whether `a` stands before `b` or is the same text.
pub fn text_before(a: &str, b: &str) -> (r: bool)
    ensures
        r == text_le(a@, b@),
{
    let mut x = a.chars();
    let mut y = b.chars();
    let ghost i: int = 0;
    assert(a@.skip(0) =~= a@);
    assert(b@.skip(0) =~= b@);
    loop
        invariant
            0 <= i <= a@.len(),
            i <= b@.len(),
            vstd::std_specs::iter::IteratorSpec::remaining(&x) == a@.skip(i),
            vstd::std_specs::iter::IteratorSpec::remaining(&y) == b@.skip(i),
            text_le(a@.skip(i), b@.skip(i)) == text_le(a@, b@),
        decreases a@.len() - i,
    {
        let p = match x.next() {
            None => {
                return true;
            },
            Some(c) => c,
        };
        let q = match y.next() {
            None => {
                return false;
            },
            Some(c) => c,
        };
        if p != q {
            return (p as u32) < (q as u32);
        }
        proof {
            assert(a@.skip(i).drop_first() =~= a@.skip(i + 1));
            assert(b@.skip(i).drop_first() =~= b@.skip(i + 1));
            i = i + 1;
        }
    }
}

// ---------------------------------------------------------------------------
// What holds of texts
// ---------------------------------------------------------------------------

/// Of the characters in common use, blanks and those that end a line or a page are
/// white, and none that can be seen is.
pub proof fn law_only_blanks_are_white(c: char)
    ensures
        c as u32 <= 0x7F ==> (is_white(c) <==> c == ' ' || 9 <= c as u32 <= 13),
        c as u32 == 0xA0 || c as u32 == 0x3000 ==> is_white(c),
        0x4E00 <= c as u32 <= 0x9FFF || 0xC0 <= c as u32 <= 0x24F ==> !is_white(c),
{
}

proof fn lemma_leading(s: Seq<char>)
    ensures
        ({
            let t = without_leading_white(s);
            let n = s.len() - t.len();
            &&& 0 <= n
            &&& t == s.skip(n)
            &&& forall|i: int| 0 <= i < n ==> is_white(#[trigger] s[i])
            &&& t.len() > 0 ==> !is_white(t[0])
        }),
    decreases s.len(),
{
    if s.len() > 0 && is_white(s[0]) {
        let rest = s.drop_first();
        lemma_leading(rest);
        let t = without_leading_white(s);
        let n = s.len() - t.len();
        assert(s.skip(n) =~= rest.skip(n - 1));
        assert forall|i: int| 0 <= i < n implies is_white(#[trigger] s[i]) by {
            if i > 0 {
                assert(s[i] == rest[i - 1]);
            }
        }
    } else {
        assert(s.skip(0) =~= s);
    }
}

proof fn lemma_trailing(s: Seq<char>)
    ensures
        ({
            let t = without_trailing_white(s);
            &&& t.len() <= s.len()
            &&& t == s.take(t.len() as int)
            &&& forall|i: int| t.len() <= i < s.len() ==> is_white(#[trigger] s[i])
            &&& t.len() > 0 ==> !is_white(t.last())
        }),
    decreases s.len(),
{
    if s.len() > 0 && is_white(s.last()) {
        let rest = s.drop_last();
        lemma_trailing(rest);
        let t = without_trailing_white(s);
        assert(s.take(t.len() as int) =~= rest.take(t.len() as int));
        assert forall|i: int| t.len() <= i < s.len() implies is_white(#[trigger] s[i]) by {
            if i < rest.len() {
                assert(s[i] == rest[i]);
            }
        }
    } else {
        assert(s.take(s.len() as int) =~= s);
    }
}

/// What is left of a trimmed text stands in it unbroken, with white alone before
/// and behind it, and neither starts nor ends with white. A text that neither
/// starts nor ends with white is not changed.
pub proof fn law_trimming_takes_off_white_alone(s: Seq<char>) -> (from: int)
    ensures
        ({
            let t = trimmed(s);
            let to = from + t.len();
            &&& 0 <= from <= to <= s.len()
            &&& t == s.subrange(from, to)
            &&& forall|i: int| 0 <= i < from || to <= i < s.len() ==> is_white(#[trigger] s[i])
            &&& t.len() > 0 ==> !is_white(t[0]) && !is_white(t.last())
        }),
        s.len() > 0 && !is_white(s[0]) && !is_white(s.last()) ==> trimmed(s) == s,
{
    let u = without_leading_white(s);
    let from = s.len() - u.len();
    lemma_leading(s);
    lemma_trailing(u);
    let t = trimmed(s);
    let to = from + t.len();
    assert(t =~= s.subrange(from, to));
    assert forall|i: int| 0 <= i < from || to <= i < s.len() implies is_white(#[trigger] s[i]) by {
        if i >= to {
            assert(u[i - from] == s[i]);
        }
    }
    if t.len() > 0 {
        assert(t[0] == u[0]);
    }
    from
}

/// Whether a text comes before another: where they first differ it has the lower
/// character, or it ends there.
pub open spec fn comes_before(a: Seq<char>, b: Seq<char>, k: int) -> bool {
    &&& 0 <= k <= a.len() && k < b.len()
    &&& a.take(k) == b.take(k)
    &&& k < a.len() ==> (a[k] as u32) < (b[k] as u32)
}

/// Texts are ordered as in a dictionary, by the numbers of their characters.
pub proof fn law_texts_are_ordered_as_words(a: Seq<char>, b: Seq<char>)
    ensures
        text_le(a, b) <==> a == b || exists|k: int| comes_before(a, b, k),
    decreases a.len(),
{
    if a.len() == 0 {
        assert(a.take(0) =~= b.take(0));
        if b.len() == 0 {
            assert(a =~= b);
        } else {
            assert(comes_before(a, b, 0));
        }
    } else if b.len() > 0 && a[0] == b[0] {
        let ra = a.drop_first();
        let rb = b.drop_first();
        law_texts_are_ordered_as_words(ra, rb);
        if ra == rb {
            assert(a =~= seq![a[0]] + ra);
            assert(b =~= seq![b[0]] + rb);
        }
        if exists|k: int| comes_before(ra, rb, k) {
            let k = choose|k: int| comes_before(ra, rb, k);
            assert(a.take(k + 1) =~= seq![a[0]] + ra.take(k));
            assert(b.take(k + 1) =~= seq![b[0]] + rb.take(k));
            assert(comes_before(a, b, k + 1));
        }
        if exists|k: int| comes_before(a, b, k) {
            let k = choose|k: int| comes_before(a, b, k);
            assert(k > 0);
            assert(ra.take(k - 1) =~= a.take(k).drop_first());
            assert(rb.take(k - 1) =~= b.take(k).drop_first());
            assert(comes_before(ra, rb, k - 1));
        }
    } else if b.len() > 0 {
        assert(a.take(0) =~= b.take(0));
        if (a[0] as u32) < (b[0] as u32) {
            assert(comes_before(a, b, 0));
        }
        if exists|k: int| comes_before(a, b, k) {
            let k = choose|k: int| comes_before(a, b, k);
            if k > 0 {
                assert(a.take(k)[0] == b.take(k)[0]);
            }
        }
    }
}

/// A number is written with the digits 0 to 9, without a needless one in front, so
/// that each digit counts ten times what the next one does.
pub proof fn law_numbers_are_written_in_tens(n: nat, d: nat)
    requires
        d < 10,
    ensures
        decimal(d) == seq![(48 + d) as char],
        n > 0 ==> decimal(10 * n + d) == decimal(n) + decimal(d),
        decimal(n).len() > 1 ==> decimal(n)[0] != '0',
    decreases n,
{
    if n > 0 {
        assert((10 * n + d) / 10 == n);
        assert((10 * n + d) % 10 == d);
        assert(decimal(n) + decimal(d) =~= decimal(n).push(digit_char(d)));
    }
    if n >= 10 {
        law_numbers_are_written_in_tens(n / 10, d);
        lemma_decimal(n / 10);
        assert(decimal(n)[0] == decimal(n / 10)[0]);
        if n < 100 {
            lemma_digit_char(n / 10);
            assert(decimal(n / 10)[0] as u32 == 48 + n / 10);
            assert('0' as u32 == 48);
        } else {
            lemma_decimal(n / 10 / 10);
            assert(decimal(n / 10).len() > 1);
        }
    }
}

/// A number is read from digits alone, behind a plus sign or not, each counting ten
/// times what the next one does, as long as it has 16 bits.
pub proof fn law_numbers_are_read_in_tens(s: Seq<char>, c: char)
    requires
        s.len() > 0,
        48 <= s[0] as u32 <= 57,
    ensures
        parsed_u16(seq!['+'] + s) == parsed_u16(s),
        !(48 <= c as u32 <= 57) ==> parsed_u16(s.push(c)) is None,
        48 <= c as u32 <= 57 ==> parsed_u16(s.push(c)) == match parsed_u16(s) {
            Some(v) => if 10 * v + (c as u32 - 48) <= 0xFFFF {
                Some((10 * v + (c as u32 - 48)) as u16)
            } else {
                None
            },
            None => None,
        },
        parsed_u16(Seq::empty()) is None,
        parsed_u16(seq!['+']) is None,
{
    let plus = seq!['+'] + s;
    assert(plus.drop_first() =~= s);
    let t = s.push(c);
    assert(t.drop_last() =~= s);
    assert(t.last() == c);
    assert(t[0] == s[0]);
    assert(all_digits(t) <==> all_digits(s) && is_digit(c)) by {
        if all_digits(t) {
            assert forall|i: int| 0 <= i < s.len() implies is_digit(#[trigger] s[i]) by {
                assert(t[i] == s[i]);
            }
            assert(is_digit(t[s.len() as int]));
        }
        if all_digits(s) && is_digit(c) {
            assert forall|i: int| 0 <= i < t.len() implies is_digit(#[trigger] t[i]) by {
                if i < s.len() {
                    assert(t[i] == s[i]);
                }
            }
        }
    }
    assert(seq!['+'].drop_first() =~= Seq::<char>::empty());
}

/// A text falls into the words that white parts: what stands before a white
/// character and what stands behind it fall into their words apart, white alone has
/// none, and a run without white is one word.
pub proof fn law_white_parts_words(a: Seq<char>, c: char, b: Seq<char>, w: Seq<char>)
    requires
        is_white(c),
    ensures
        words(a + seq![c] + b) == words(a) + words(b),
        words(Seq::empty()) == Seq::<Seq<char>>::empty(),
        w.len() > 0 && (forall|i: int| 0 <= i < w.len() ==> !is_white(#[trigger] w[i])) ==> words(w)
            == seq![w],
{
    lemma_words_parted(a, c, b);
    assert(words(Seq::<char>::empty()) =~= Seq::empty());
    if w.len() > 0 && (forall|i: int| 0 <= i < w.len() ==> !is_white(#[trigger] w[i])) {
        lemma_words_of_word(w, Seq::empty());
    }
}

proof fn lemma_words_parted(a: Seq<char>, c: char, b: Seq<char>)
    requires
        is_white(c),
    ensures
        words(a + seq![c] + b) == words(a) + words(b),
    decreases a.len(),
{
    let s = a + seq![c] + b;
    let t = without_leading_white(a);
    lemma_leading_of_both(a, seq![c] + b);
    assert(s =~= a + (seq![c] + b));
    lemma_leading(a);
    if t.len() == 0 {
        let rest = seq![c] + b;
        assert(rest.drop_first() =~= b);
        assert(without_leading_white(rest) == without_leading_white(b));
        assert(words(s) == words(b));
        assert(words(a) + words(b) =~= words(b));
    } else {
        lemma_word_len(t);
        let n = word_len(t) as int;
        let w = t.take(n);
        let rest = t.skip(n);
        let after = rest + seq![c] + b;
        let all = t + (seq![c] + b);
        assert(without_leading_white(s) == all);
        assert(all =~= w + after);
        assert(is_word(w)) by {
            assert forall|i: int| 0 <= i < w.len() implies !is_white(#[trigger] w[i]) by {
                assert(t[i] == w[i]);
            }
        }
        assert(after.len() > 0 && is_white(after[0])) by {
            if rest.len() > 0 {
                assert(after[0] == t[n]);
            }
        }
        lemma_word_len_of_word(w, after);
        assert(all.take(n) =~= w);
        assert(all.skip(n) =~= after);
        lemma_words_parted(rest, c, b);
        assert(words(s) == seq![w] + words(after));
        assert(words(a) == seq![w] + words(rest));
        assert(words(s) =~= words(a) + words(b));
    }
}

proof fn lemma_leading_of_both(a: Seq<char>, b: Seq<char>)
    ensures
        without_leading_white(a + b) == if without_leading_white(a).len() == 0 {
            without_leading_white(b)
        } else {
            without_leading_white(a) + b
        },
    decreases a.len(),
{
    if a.len() == 0 {
        assert(a + b =~= b);
    } else if is_white(a[0]) {
        assert((a + b).drop_first() =~= a.drop_first() + b);
        lemma_leading_of_both(a.drop_first(), b);
    }
}

} // verus!

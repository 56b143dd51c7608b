//! Little-endian integers on the wire.

use vstd::prelude::*;

verus! {

/// 256 to the power of `n`.
pub open spec fn pow256(n: nat) -> nat
    decreases n,
{
    if n == 0 {
        1
    } else {
        256 * pow256((n - 1) as nat)
    }
}

/// The `n` low bytes of `v`, the lowest first.
pub open spec fn le_bytes(v: nat, n: nat) -> Seq<u8>
    decreases n,
{
    if n == 0 {
        Seq::empty()
    } else {
        seq![(v % 256) as u8] + le_bytes(v / 256, (n - 1) as nat)
    }
}

/// The number whose bytes are `b`, the lowest first.
pub open spec fn le_value(b: Seq<u8>) -> nat
    decreases b.len(),
{
    if b.len() == 0 {
        0
    } else {
        b[0] as nat + 256 * le_value(b.drop_first())
    }
}

pub proof fn lemma_pow256()
    ensures
        pow256(0) == 1,
        pow256(1) == 0x100,
        pow256(2) == 0x1_0000,
        pow256(4) == 0x1_0000_0000,
        pow256(8) == 0x1_0000_0000_0000_0000,
{
    reveal_with_fuel(pow256, 9);
}

pub broadcast proof fn lemma_le_bytes_len(v: nat, n: nat)
    ensures
        (#[trigger] le_bytes(v, n)).len() == n,
    decreases n,
{
    if n > 0 {
        lemma_le_bytes_len(v / 256, (n - 1) as nat);
    }
}

pub proof fn lemma_le_value_bound(b: Seq<u8>)
    ensures
        le_value(b) < pow256(b.len()),
    decreases b.len(),
{
    if b.len() > 0 {
        lemma_le_value_bound(b.drop_first());
    }
}

/// Reading an integer back gives the integer that was written, where it fits
/// in the bytes written.
pub proof fn law_le_read_back(v: nat, n: nat)
    requires
        v < pow256(n),
    ensures
        le_value(le_bytes(v, n)) == v,
    decreases n,
{
    if n > 0 {
        law_le_read_back(v / 256, (n - 1) as nat);
        assert(le_bytes(v, n).drop_first() =~= le_bytes(v / 256, (n - 1) as nat));
    }
}

/// Writing an integer that was read gives the bytes that were read.
pub proof fn law_le_write_back(b: Seq<u8>)
    ensures
        le_bytes(le_value(b), b.len()) == b,
    decreases b.len(),
{
    if b.len() > 0 {
        let rest = b.drop_first();
        law_le_write_back(rest);
        let v = le_value(b);
        assert(v % 256 == b[0] as nat && v / 256 == le_value(rest));
        assert(le_bytes(v, b.len()) =~= seq![b[0]] + rest);
        assert(seq![b[0]] + rest =~= b);
    } else {
        assert(le_bytes(0, 0) =~= b);
    }
}

fn push_le(buf: &mut Vec<u8>, v: u64, n: usize)
    ensures
        final(buf)@ == old(buf)@ + le_bytes(v as nat, n as nat),
{
    let mut rest: u64 = v;
    let mut i: usize = 0;
    assert(buf@ + le_bytes(v as nat, n as nat) =~= old(buf)@ + le_bytes(v as nat, n as nat));
    while i < n
        invariant
            i <= n,
            buf@ + le_bytes(rest as nat, (n - i) as nat) == old(buf)@ + le_bytes(
                v as nat,
                n as nat,
            ),
        decreases n - i,
    {
        let ghost before = buf@;
        let b: u8 = (rest % 256) as u8;
        buf.push(b);
        proof {
            let tail = le_bytes((rest / 256) as nat, (n - i - 1) as nat);
            assert(le_bytes(rest as nat, (n - i) as nat) == seq![b] + tail);
            assert(buf@ + tail =~= before + (seq![b] + tail));
        }
        rest = rest / 256;
        i = i + 1;
    }
    assert(buf@ + le_bytes(rest as nat, 0) =~= buf@);
}

/// The value of `buf[pos..pos + n]`.
fn get_le(buf: &[u8], pos: usize, n: usize) -> (v: u64)
    requires
        n <= 8,
        pos + n <= buf@.len(),
    ensures
        v as nat == le_value(buf@.subrange(pos as int, pos + n)),
        (v as nat) < pow256(n as nat),
{
    let end: usize = buf.len();
    let mut v: u64 = 0;
    let mut i: usize = n;
    let ghost all = buf@.subrange(pos as int, pos + n);
    assert(all.skip(n as int) =~= Seq::<u8>::empty());
    while i > 0
        invariant
            i <= n <= 8,
            pos + n <= buf@.len() == end,
            all == buf@.subrange(pos as int, pos + n),
            v as nat == le_value(all.skip(i as int)),
        decreases i,
    {
        i = i - 1;
        proof {
            assert(all.skip(i as int).drop_first() =~= all.skip(i + 1));
            lemma_le_value_bound(all.skip(i + 1));
            lemma_le_value_bound(all.skip(i as int));
            reveal_with_fuel(pow256, 9);
        }
        v = v * 256 + buf[pos + i] as u64;
    }
    proof {
        assert(all.skip(0) =~= all);
        lemma_le_value_bound(all);
    }
    v
}

/// Appends one byte.
pub fn write_u8(w: &mut Vec<u8>, v: u8)
    ensures
        final(w)@ == old(w)@ + le_bytes(v as nat, 1),
{
    push_le(w, v as u64, 1);
}

/// Appends a 16-bit integer.
pub fn write_u16(w: &mut Vec<u8>, v: u16)
    ensures
        final(w)@ == old(w)@ + le_bytes(v as nat, 2),
{
    push_le(w, v as u64, 2);
}

/// Appends a 32-bit integer.
pub fn write_u32(w: &mut Vec<u8>, v: u32)
    ensures
        final(w)@ == old(w)@ + le_bytes(v as nat, 4),
{
    push_le(w, v as u64, 4);
}

/// Appends a 64-bit integer.
pub fn write_u64(w: &mut Vec<u8>, v: u64)
    ensures
        final(w)@ == old(w)@ + le_bytes(v as nat, 8),
{
    push_le(w, v, 8);
}

/// The low bytes of a number do not depend on what is above them.
pub proof fn lemma_low_bytes(v: nat, n: nat)
    ensures
        le_bytes(v, n) == le_bytes(v % pow256(n), n),
    decreases n,
{
    if n > 0 {
        let m = pow256((n - 1) as nat);
        lemma_pow256_positive((n - 1) as nat);
        vstd::arithmetic::div_mod::lemma_breakdown(v as int, 256, m as int);
        lemma_low_bytes(v / 256, (n - 1) as nat);
    }
}

proof fn lemma_pow256_positive(n: nat)
    ensures
        pow256(n) > 0,
    decreases n,
{
    if n > 0 {
        lemma_pow256_positive((n - 1) as nat);
    }
}

/// The integer of `n` bytes that starts at `pos`, or `None` where the bytes end
/// before it does.
pub open spec fn int_at(r: Seq<u8>, pos: int, n: nat) -> Option<nat> {
    if 0 <= pos && pos + n <= r.len() {
        Some(le_value(r.subrange(pos, pos + n)))
    } else {
        None
    }
}

/// The integer of `n` bytes at `pos`, where the bytes reach that far.
pub open spec fn field(r: Seq<u8>, pos: int, n: nat) -> nat {
    le_value(r.subrange(pos, pos + n))
}

/// A field that was written at `pos` reads back as the number written.
pub proof fn lemma_field(r: Seq<u8>, pos: int, n: nat, v: nat)
    requires
        0 <= pos,
        pos + n <= r.len(),
        r.subrange(pos, pos + n) == le_bytes(v, n),
        v < pow256(n),
    ensures
        field(r, pos, n) == v,
        int_at(r, pos, n) == Some(v),
{
    law_le_read_back(v, n);
}

/// The byte at `pos`; `None` at the end of the bytes.
pub fn read_u8(r: &[u8], pos: usize) -> (v: Option<u8>)
    ensures
        v is Some <==> int_at(r@, pos as int, 1) is Some,
        v matches Some(x) ==> x as nat == int_at(r@, pos as int, 1)->0,
{
    if r.len() < 1 || pos > r.len() - 1 {
        return None;
    }
    proof {
        lemma_pow256();
    }
    Some(get_le(r, pos, 1) as u8)
}

/// The 16-bit integer at `pos`; `None` where the bytes end before it does.
pub fn read_u16(r: &[u8], pos: usize) -> (v: Option<u16>)
    ensures
        v is Some <==> int_at(r@, pos as int, 2) is Some,
        v matches Some(x) ==> x as nat == int_at(r@, pos as int, 2)->0,
{
    if r.len() < 2 || pos > r.len() - 2 {
        return None;
    }
    proof {
        lemma_pow256();
    }
    Some(get_le(r, pos, 2) as u16)
}

/// The 32-bit integer at `pos`; `None` where the bytes end before it does.
pub fn read_u32(r: &[u8], pos: usize) -> (v: Option<u32>)
    ensures
        v is Some <==> int_at(r@, pos as int, 4) is Some,
        v matches Some(x) ==> x as nat == int_at(r@, pos as int, 4)->0,
{
    if r.len() < 4 || pos > r.len() - 4 {
        return None;
    }
    proof {
        lemma_pow256();
    }
    Some(get_le(r, pos, 4) as u32)
}

/// The 64-bit integer at `pos`; `None` where the bytes end before it does.
pub fn read_u64(r: &[u8], pos: usize) -> (v: Option<u64>)
    ensures
        v is Some <==> int_at(r@, pos as int, 8) is Some,
        v matches Some(x) ==> x as nat == int_at(r@, pos as int, 8)->0,
{
    if r.len() < 8 || pos > r.len() - 8 {
        return None;
    }
    Some(get_le(r, pos, 8))
}

/// The lowest byte of a number stands first, and the others follow in the same way.
pub proof fn law_lowest_byte_stands_first(v: nat, n: nat, b: u8, rest: Seq<u8>)
    ensures
        n > 0 ==> {
            &&& le_bytes(v, n)[0] as nat == v % 256
            &&& le_bytes(v, n).drop_first() == le_bytes(v / 256, (n - 1) as nat)
        },
        le_bytes(v, 0).len() == 0,
        le_value(Seq::empty()) == 0,
        le_value(seq![b] + rest) == b as nat + 256 * le_value(rest),
{
    if n > 0 {
        assert(le_bytes(v, n).drop_first() =~= le_bytes(v / 256, (n - 1) as nat));
    }
    assert((seq![b] + rest).drop_first() =~= rest);
}

/// A field of one byte is that byte.
pub proof fn lemma_one_byte(r: Seq<u8>, pos: int)
    requires
        0 <= pos < r.len(),
    ensures
        field(r, pos, 1) == r[pos],
{
    let b = r.subrange(pos, pos + 1);
    assert(b.drop_first() =~= Seq::empty());
    assert(le_value(b) == b[0] as nat + 256 * le_value(b.drop_first()));
    assert(le_value(b.drop_first()) == 0);
}

/// Two fields of as many bytes are equal just where their bytes are.
pub proof fn law_equal_fields_have_equal_bytes(a: Seq<u8>, b: Seq<u8>)
    requires
        a.len() == b.len(),
    ensures
        le_value(a) == le_value(b) <==> a == b,
{
    law_le_write_back(a);
    law_le_write_back(b);
}

} // verus!

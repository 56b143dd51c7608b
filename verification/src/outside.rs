//! What the library takes from other crates and from `std`, each with the
//! contract that it is trusted to meet.

use lz4_flex::block::DecompressError;
use vstd::prelude::*;
use vstd::utf8::*;
use xxhash_rust::xxh3::Xxh3;

use crate::wire::{le_value, read_u32};

verus! {

// ---------------------------------------------------------------------------
// XXH3
// ---------------------------------------------------------------------------

/// The XXH3 hash, of 64 bits and without seed, of a byte string.
pub uninterp spec fn content_hash(data: Seq<u8>) -> u64;

/// `xxhash_rust::xxh3::Xxh3`: the streaming form of the hash.
#[verifier::external_type_specification]
#[verifier::external_body]
pub struct ExXxh3(xxhash_rust::xxh3::Xxh3);

/// The bytes that a streaming hasher holds: all that it was given, in order.
pub uninterp spec fn absorbed(h: Xxh3) -> Seq<u8>;

/// `xxhash_rust::xxh3::xxh3_64`: the hash of the bytes given.
pub assume_specification[ xxhash_rust::xxh3::xxh3_64 ](input: &[u8]) -> (digest: u64)
    ensures
        digest == content_hash(input@),
;

/// `Xxh3::new`: a hasher that was given nothing yet.
pub assume_specification[ Xxh3::new ]() -> (h: Xxh3)
    ensures
        absorbed(h) == Seq::<u8>::empty(),
;

/// `Xxh3::update`: adds the bytes at the end of what the hasher was given.
pub assume_specification[ Xxh3::update ](h: &mut Xxh3, input: &[u8])
    ensures
        absorbed(*final(h)) == absorbed(*old(h)) + input@,
;

/// `Xxh3::digest`: the hash of all that the hasher was given, the same as the
/// one-shot function gives for it.
pub assume_specification[ Xxh3::digest ](h: &Xxh3) -> (digest: u64)
    ensures
        digest == content_hash(absorbed(*h)),
;

// ---------------------------------------------------------------------------
// LZ4
// ---------------------------------------------------------------------------

/// The content of an LZ4 block behind its length; `None` where the bytes are
/// no such block.
pub uninterp spec fn lz4_content(block: Seq<u8>) -> Option<Seq<u8>>;

/// `lz4_flex::block::DecompressError`: why a block is refused.
#[verifier::external_type_specification]
#[verifier::external_body]
pub struct ExDecompressError(lz4_flex::block::DecompressError);

/// `lz4_flex::compress_prepend_size`: an LZ4 block behind the length of its
/// content, four bytes with the lowest first. Decompression gives the content
/// back. Which of the blocks with that content it is, and so how long it is, is
/// left open: the matches that the compressor finds rest on the width of the
/// machine's words and on the order of their bytes.
pub assume_specification[ lz4_flex::compress_prepend_size ](input: &[u8]) -> (block: Vec<u8>)
    requires
        input@.len() <= 0x80_0000,
    ensures
        block@.len() >= 4,
        le_value(block@.subrange(0, 4)) == input@.len(),
        lz4_content(block@) == Some(input@),
;

/// `lz4_flex::decompress_size_prepended`: the content of a block, or an error
/// where the bytes are no block. What is asked of the bytes keeps the lengths
/// that it adds up from overflowing, and the length in front within what a
/// vector can have: see [`unpackable`].
pub assume_specification[ lz4_flex::decompress_size_prepended ](input: &[u8]) -> (r: Result<
    Vec<u8>,
    DecompressError,
>)
    requires
        unpackable(input@),
    ensures
        match r {
            Ok(data) => lz4_content(input@) == Some(data@),
            Err(_) => lz4_content(input@) is None,
        },
;

/// How long a run of 0xFF bytes in a length must not be. A length inside a block
/// is the sum of such a run and of the byte behind it, and is held in 32 bits;
/// where addresses have 32 bits too, a position is added to it.
pub open spec fn run_limit() -> int {
    if usize::MAX > 0xFFFF_FFFF {
        16_843_009
    } else {
        8_421_504
    }
}

/// Where a run of 0xFF bytes that starts at `i` ends.
pub open spec fn run_end(block: Seq<u8>, i: int) -> int
    decreases block.len() - i,
{
    if 0 <= i < block.len() && block[i] == 0xFF {
        run_end(block, i + 1)
    } else {
        i
    }
}

/// Where the literals that the token at `pos` announces end. A nibble of 15 is
/// the start of a longer length.
pub open spec fn literals_end(block: Seq<u8>, pos: int) -> int {
    let end = run_end(block, pos + 1);
    if block[pos] / 16 < 15 {
        pos + 1 + block[pos] / 16
    } else if end < block.len() {
        end + 1 + 15 + 255 * (end - (pos + 1)) + block[end]
    } else {
        end
    }
}

/// Whether the lengths of the block, from the token at `pos` on, can be added
/// up. Each token is followed by its literals, two bytes that say from where to
/// copy, and the rest of a length of 15 or more; the bytes end with literals.
pub open spec fn lengths_fit(block: Seq<u8>, pos: int) -> bool
    decreases block.len() - pos,
    via lengths_fit_decreases
{
    if pos < 0 || pos >= block.len() {
        true
    } else if block[pos] / 16 == 15 && run_end(block, pos + 1) - (pos + 1) >= run_limit() {
        false
    } else {
        let copy = literals_end(block, pos);
        if copy + 2 > block.len() {
            true
        } else if block[pos] % 16 == 15 {
            let end = run_end(block, copy + 2);
            end - (copy + 2) < run_limit() && (end >= block.len() || lengths_fit(block, end + 1))
        } else {
            lengths_fit(block, copy + 2)
        }
    }
}

#[via_fn]
proof fn lengths_fit_decreases(block: Seq<u8>, pos: int) {
    lemma_run_end(block, pos + 1);
    lemma_run_end(block, literals_end(block, pos) + 2);
}

proof fn lemma_run_end(block: Seq<u8>, i: int)
    ensures
        run_end(block, i) >= i,
        i <= block.len() ==> run_end(block, i) <= block.len(),
    decreases block.len() - i,
{
    if 0 <= i < block.len() && block[i] == 0xFF {
        lemma_run_end(block, i + 1);
    }
}

/// Whether decompression can be tried on these bytes: the lengths inside can be
/// added up, and the length in front is one that a vector can have.
pub open spec fn unpackable(block: Seq<u8>) -> bool {
    block.len() >= 4 ==> {
        &&& le_value(block.subrange(0, 4)) <= isize::MAX
        &&& lengths_fit(block, 4)
    }
}

fn end_of_run(block: &[u8], i: usize) -> (r: usize)
    requires
        i <= block@.len(),
    ensures
        r == run_end(block@, i as int),
        i <= r <= block@.len(),
{
    let mut end: usize = i;
    while end < block.len() && block[end] == 0xFF
        invariant
            i <= end <= block@.len(),
            run_end(block@, end as int) == run_end(block@, i as int),
        decreases block@.len() - end,
    {
        end = end + 1;
    }
    end
}

/// Whether decompression can be tried on these bytes.
pub fn can_unpack(block: &[u8]) -> (r: bool)
    ensures
        r == unpackable(block@),
{
    match read_u32(block, 0) {
        Some(n) => {
            if n as u64 > isize::MAX as u64 {
                return false;
            }
        },
        None => {
            return true;
        },
    }
    let limit: usize = if usize::MAX as u64 > 0xFFFF_FFFF {
        16_843_009
    } else {
        8_421_504
    };
    let len: usize = block.len();
    let mut pos: usize = 4;
    while pos < len
        invariant
            limit == run_limit(),
            len == block@.len(),
            le_value(block@.subrange(0, 4)) <= isize::MAX,
            4 <= pos <= len,
            lengths_fit(block@, 4) == lengths_fit(block@, pos as int),
        decreases len - pos,
    {
        let token: u8 = block[pos];
        let start: usize = pos + 1;
        let mut copy: u128 = start as u128 + (token / 16) as u128;
        if token / 16 == 15 {
            let end: usize = end_of_run(block, start);
            if end - start >= limit {
                return false;
            }
            copy = if end < len {
                end as u128 + 1 + 15 + 255 * (end - start) as u128 + block[end] as u128
            } else {
                end as u128
            };
        }
        assert(copy == literals_end(block@, pos as int));
        if copy + 2 > len as u128 {
            return true;
        }
        let next: usize = copy as usize + 2;
        if token % 16 == 15 {
            let end: usize = end_of_run(block, next);
            if end - next >= limit {
                return false;
            }
            if end == len {
                return true;
            }
            pos = end + 1;
        } else {
            pos = next;
        }
    }
    true
}

/// Bytes that are no longer than files which are compressed, and that name a
/// small enough content, can be tried on any machine.
pub proof fn lemma_short_is_unpackable(block: Seq<u8>)
    requires
        block.len() <= 0x80_0000,
        block.len() >= 4 ==> le_value(block.subrange(0, 4)) <= 0x80_0000,
    ensures
        unpackable(block),
{
    lemma_short_lengths_fit(block, 4);
}

proof fn lemma_short_lengths_fit(block: Seq<u8>, pos: int)
    requires
        block.len() <= 0x80_0000,
        0 <= pos,
    ensures
        lengths_fit(block, pos),
    decreases block.len() - pos,
{
    if pos < block.len() {
        lemma_run_end(block, pos + 1);
        let copy = literals_end(block, pos);
        if copy + 2 <= block.len() {
            lemma_run_end(block, copy + 2);
            if block[pos] % 16 == 15 {
                if run_end(block, copy + 2) < block.len() {
                    lemma_short_lengths_fit(block, run_end(block, copy + 2) + 1);
                }
            } else {
                lemma_short_lengths_fit(block, copy + 2);
            }
        }
    }
}

// ---------------------------------------------------------------------------
// UTF-8
// ---------------------------------------------------------------------------

/// `String::from_utf8`: the text that the bytes encode; `None` exactly where
/// they are not valid UTF-8.
#[verifier::external_body]
pub(crate) fn utf8_text(bytes: Vec<u8>) -> (r: Option<String>)
    ensures
        r is Some <==> valid_utf8(bytes@),
        r matches Some(s) ==> encode_utf8(s@) == bytes@,
{
    String::from_utf8(bytes).ok()
}

/// The text that bytes give when what is not valid UTF-8 in them is replaced by
/// U+FFFD.
pub uninterp spec fn lossy(bytes: Seq<u8>) -> Seq<char>;

/// `String::from_utf8_lossy`: the text of the bytes, with U+FFFD for what is not
/// valid UTF-8. Valid bytes give the text that they encode.
#[verifier::external_body]
pub(crate) fn lossy_text(bytes: &[u8]) -> (r: String)
    ensures
        r@ == lossy(bytes@),
        valid_utf8(bytes@) ==> r@ == decode_utf8(bytes@),
{
    String::from_utf8_lossy(bytes).into_owned()
}

// ---------------------------------------------------------------------------
// Chance
// ---------------------------------------------------------------------------

/// `rand::random`: any 64-bit number.
#[verifier::external_body]
pub(crate) fn random_u64() -> (r: u64)
{
    rand::random()
}

} // verus!

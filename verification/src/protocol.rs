//! Constants of the wire protocol and the rules that hang on them.

use vstd::prelude::*;

use crate::text::chars_of;

verus! {

/// The four bytes "FLLE", read as a little-endian integer.
pub const MAGIC: u32 = 0x454C_4C46;

pub const VERSION: u16 = 1;

pub const DEFAULT_PORT: u16 = 53317;

pub const DISCOVERY_PORT: u16 = 53319;

/// The datagram that asks for receivers on the local network.
pub const DISCOVERY_MAGIC: &'static str = "FLLE_DISCOVER_v1";

/// How the answer to [`DISCOVERY_MAGIC`] begins.
pub const DISCOVERY_REPLY_PREFIX: &'static str = "FLLE_HERE_v1 ";

/// Entry types on the control stream.
pub const ENTRY_DIR: u8 = 0;

pub const ENTRY_FILE_INLINE: u8 = 1;

pub const ENTRY_FILE_SHARDED: u8 = 2;

pub const ENTRY_END: u8 = 0xFF;

/// Per-file flag: the bytes on the wire are an LZ4 block.
pub const F_COMPRESSED: u8 = 0x01;

/// Handshake flags.
pub const H_COMPRESS: u16 = 0x01;

pub const H_CHECKSUM: u16 = 0x02;

pub const H_OVERWRITE: u16 = 0x04;

/// Bytes read from disk at a time for a file sent over the data streams.
pub const CHUNK_SIZE: u32 = 4 * 1024 * 1024;

/// Files of this size and above are spread over the data streams.
pub const LARGE_THRESHOLD: u64 = 64 * 1024 * 1024;

/// Files up to this size are buffered by the receiver and written concurrently.
pub const INLINE_MEM_LIMIT: u64 = 8 * 1024 * 1024;

/// Files up to this size are sent as they are, even with compression on.
pub const COMPRESS_MIN: u64 = 1024;

/// The receiver accepts no more bytes than this inline.
pub const MAX_INLINE: u64 = 256 * 1024 * 1024;

/// The receiver accepts no longer chunk than this on a data stream.
pub const MAX_CHUNK: u32 = 16 * 1024 * 1024;

/// Send and receive buffers of the sockets.
pub const SOCKET_BUF: u32 = 4 * 1024 * 1024;

/// Longest path on the wire, in bytes.
pub const MAX_PATH_LEN: usize = 16 * 1024;

/// Most data streams that a transfer opens.
pub const MAX_STREAMS: u8 = 8;

/// The data port is the control port plus one (after the last port comes 0).
pub fn data_port(control_port: u16) -> (r: u16)
    ensures
        r == (control_port + 1) % 0x1_0000,
{
    control_port.wrapping_add(1)
}

// ---------------------------------------------------------------------------
// Files that are compressed already
// ---------------------------------------------------------------------------

/// `c` with the letters A to Z in lower case.
pub open spec fn ascii_lower(c: char) -> char {
    if 65 <= c as u32 <= 90 {
        ((c as u32) + 32) as char
    } else {
        c
    }
}

/// `s` with the letters A to Z in lower case.
pub open spec fn ascii_lowered(s: Seq<char>) -> Seq<char> {
    s.map_values(|c: char| ascii_lower(c))
}

/// Whether `s` ends with `e`.
pub open spec fn ends_with(s: Seq<char>, e: Seq<char>) -> bool {
    e.len() <= s.len() && s.skip(s.len() - e.len()) == e
}

/// Whether a lower-case path ends as archives, media and other compressed
/// files do.
pub open spec fn packed_ending(s: Seq<char>) -> bool {
    ||| ends_with(s, ".zip"@)
    ||| ends_with(s, ".7z"@)
    ||| ends_with(s, ".rar"@)
    ||| ends_with(s, ".gz"@)
    ||| ends_with(s, ".bz2"@)
    ||| ends_with(s, ".xz"@)
    ||| ends_with(s, ".zst"@)
    ||| ends_with(s, ".mp4"@)
    ||| ends_with(s, ".mkv"@)
    ||| ends_with(s, ".avi"@)
    ||| ends_with(s, ".mov"@)
    ||| ends_with(s, ".mp3"@)
    ||| ends_with(s, ".flac"@)
    ||| ends_with(s, ".jpg"@)
    ||| ends_with(s, ".jpeg"@)
    ||| ends_with(s, ".png"@)
    ||| ends_with(s, ".webp"@)
    ||| ends_with(s, ".gif"@)
    ||| ends_with(s, ".pdf"@)
    ||| ends_with(s, ".exe"@)
    ||| ends_with(s, ".msi"@)
    ||| ends_with(s, ".iso"@)
    ||| ends_with(s, ".vhd"@)
    ||| ends_with(s, ".vhdx"@)
    ||| ends_with(s, ".qcow2"@)
    ||| ends_with(s, ".parquet"@)
    ||| ends_with(s, ".lz4"@)
    ||| ends_with(s, ".br"@)
}

fn lower(c: char) -> (r: char)
    ensures
        r == ascii_lower(c),
{
    let u: u32 = c as u32;
    if 65 <= u && u <= 90 {
        ((u as u8) + 32) as char
    } else {
        c
    }
}

fn has_ending(v: &Vec<char>, e: &str) -> (r: bool)
    ensures
        r == ends_with(v@, e@),
{
    let w: Vec<char> = chars_of(e);
    if w.len() > v.len() {
        return false;
    }
    let total: usize = v.len();
    let from: usize = total - w.len();
    let ghost tail = v@.skip(from as int);
    let mut i: usize = 0;
    while i < w.len()
        invariant
            i <= w@.len(),
            w@ == e@,
            from + w@.len() == v@.len() == total,
            tail == v@.skip(from as int),
            forall|j: int| 0 <= j < i ==> tail[j] == w@[j],
        decreases w@.len() - i,
    {
        if v[from + i] != w[i] {
            assert(tail[i as int] != w@[i as int]);
            return false;
        }
        i = i + 1;
    }
    assert(tail =~= e@);
    true
}

/// Whether `path` names a file that compression would not make smaller.
pub fn is_incompressible(path: &str) -> (r: bool)
    ensures
        r == packed_ending(ascii_lowered(path@)),
{
    let given: Vec<char> = chars_of(path);
    let mut v: Vec<char> = Vec::new();
    let mut i: usize = 0;
    while i < given.len()
        invariant
            i <= given@.len(),
            v@ == ascii_lowered(given@.take(i as int)),
        decreases given@.len() - i,
    {
        v.push(lower(given[i]));
        i = i + 1;
        assert(v@ =~= ascii_lowered(given@.take(i as int)));
    }
    assert(given@.take(i as int) =~= path@);
    has_ending(&v, ".zip") || has_ending(&v, ".7z") || has_ending(&v, ".rar") || has_ending(
        &v,
        ".gz",
    ) || has_ending(&v, ".bz2") || has_ending(&v, ".xz") || has_ending(&v, ".zst") || has_ending(
        &v,
        ".mp4",
    ) || has_ending(&v, ".mkv") || has_ending(&v, ".avi") || has_ending(&v, ".mov") || has_ending(
        &v,
        ".mp3",
    ) || has_ending(&v, ".flac") || has_ending(&v, ".jpg") || has_ending(&v, ".jpeg")
        || has_ending(&v, ".png") || has_ending(&v, ".webp") || has_ending(&v, ".gif")
        || has_ending(&v, ".pdf") || has_ending(&v, ".exe") || has_ending(&v, ".msi")
        || has_ending(&v, ".iso") || has_ending(&v, ".vhd") || has_ending(&v, ".vhdx")
        || has_ending(&v, ".qcow2") || has_ending(&v, ".parquet") || has_ending(&v, ".lz4")
        || has_ending(&v, ".br")
}

/// The letters A to Z become small, and nothing else changes.
pub proof fn law_only_letters_become_small(s: Seq<char>, i: int)
    requires
        0 <= i < s.len(),
    ensures
        ascii_lowered(s).len() == s.len(),
        'A' as u32 <= s[i] as u32 <= 'Z' as u32 ==> ascii_lowered(s)[i] as u32 == s[i] as u32 + 32,
        !('A' as u32 <= s[i] as u32 <= 'Z' as u32) ==> ascii_lowered(s)[i] == s[i],
{
}

/// Whether a text is one of the words that follow the last dot of a packed file.
pub open spec fn is_packed_word(w: Seq<char>) -> bool {
    w == "zip"@ || w == "7z"@ || w == "rar"@ || w == "gz"@ || w == "bz2"@ || w == "xz"@ || w
        == "zst"@ || w == "mp4"@ || w == "mkv"@ || w == "avi"@ || w == "mov"@ || w == "mp3"@ || w
        == "flac"@ || w == "jpg"@ || w == "jpeg"@ || w == "png"@ || w == "webp"@ || w == "gif"@ || w
        == "pdf"@ || w == "exe"@ || w == "msi"@ || w == "iso"@ || w == "vhd"@ || w == "vhdx"@ || w
        == "qcow2"@ || w == "parquet"@ || w == "lz4"@ || w == "br"@
}

proof fn lemma_ending(s: Seq<char>, ending: Seq<char>, word: Seq<char>)
    requires
        ending == seq!['.'] + word,
    ensures
        ends_with(s, ending) <==> s.len() > word.len() && s[s.len() - word.len() - 1] == '.'
            && s.skip(s.len() - word.len()) == word,
{
    if ends_with(s, ending) {
        let t = s.skip(s.len() - ending.len());
        assert(t[0] == ending[0]);
        assert(s.skip(s.len() - word.len()) =~= t.drop_first());
        assert(ending.drop_first() =~= word);
    }
    if s.len() > word.len() && s[s.len() - word.len() - 1] == '.' && s.skip(s.len() - word.len())
        == word {
        let t = s.skip(s.len() - ending.len());
        assert(t =~= seq!['.'] + s.skip(s.len() - word.len()));
    }
}

/// A file counts as packed just where what follows one of the dots of its name, in
/// small letters, is one of those words.
pub proof fn law_packed_files_have_an_ending(path: Seq<char>)
    ensures
        packed_ending(ascii_lowered(path)) <==> exists|k: int|
            0 <= k < path.len() && path[k] == '.' && is_packed_word(
                ascii_lowered(#[trigger] path.skip(k + 1)),
            ),
{
    let s = ascii_lowered(path);
    lemma_endings(s);
    assert forall|k: int| 0 <= k < path.len() implies ascii_lowered(#[trigger] path.skip(k + 1))
        == s.skip(k + 1) by {
        assert(ascii_lowered(path.skip(k + 1)) =~= s.skip(k + 1));
    }
    assert forall|k: int| 0 <= k < path.len() implies (path[k] == '.' <==> #[trigger] s[k]
        == '.') by {
        assert(s[k] == ascii_lower(path[k]));
    }
    if packed_ending(s) {
        let k = choose|k: int|
            0 <= k < s.len() && s[k] == '.' && is_packed_word(#[trigger] s.skip(k + 1));
        assert(is_packed_word(ascii_lowered(path.skip(k + 1))));
    }
    if exists|k: int|
        0 <= k < path.len() && path[k] == '.' && is_packed_word(
            ascii_lowered(#[trigger] path.skip(k + 1)),
        ) {
        let k = choose|k: int|
            0 <= k < path.len() && path[k] == '.' && is_packed_word(
                ascii_lowered(#[trigger] path.skip(k + 1)),
            );
        assert(s[k] == '.' && is_packed_word(s.skip(k + 1)));
    }
}

spec fn has_word(s: Seq<char>, w: Seq<char>) -> bool {
    s.len() > w.len() && s[s.len() - w.len() - 1] == '.' && s.skip(s.len() - w.len()) == w
}

proof fn lemma_words_a(s: Seq<char>)
    ensures
        ends_with(s, ".zip"@) <==> has_word(s, "zip"@),
        ends_with(s, ".7z"@) <==> has_word(s, "7z"@),
        ends_with(s, ".rar"@) <==> has_word(s, "rar"@),
        ends_with(s, ".gz"@) <==> has_word(s, "gz"@),
        ends_with(s, ".bz2"@) <==> has_word(s, "bz2"@),
        ends_with(s, ".xz"@) <==> has_word(s, "xz"@),
        ends_with(s, ".zst"@) <==> has_word(s, "zst"@),
        ends_with(s, ".mp4"@) <==> has_word(s, "mp4"@),
        ends_with(s, ".mkv"@) <==> has_word(s, "mkv"@),
        ends_with(s, ".avi"@) <==> has_word(s, "avi"@),
        ends_with(s, ".mov"@) <==> has_word(s, "mov"@),
        ends_with(s, ".mp3"@) <==> has_word(s, "mp3"@),
        ends_with(s, ".flac"@) <==> has_word(s, "flac"@),
        ends_with(s, ".jpg"@) <==> has_word(s, "jpg"@),
{
    assert(ends_with(s, ".zip"@) <==> has_word(s, "zip"@)) by {
        reveal_strlit(".zip");
        reveal_strlit("zip");
        assert(".zip"@ =~= seq!['.'] + "zip"@);
        lemma_ending(s, ".zip"@, "zip"@);
    }
    assert(ends_with(s, ".7z"@) <==> has_word(s, "7z"@)) by {
        reveal_strlit(".7z");
        reveal_strlit("7z");
        assert(".7z"@ =~= seq!['.'] + "7z"@);
        lemma_ending(s, ".7z"@, "7z"@);
    }
    assert(ends_with(s, ".rar"@) <==> has_word(s, "rar"@)) by {
        reveal_strlit(".rar");
        reveal_strlit("rar");
        assert(".rar"@ =~= seq!['.'] + "rar"@);
        lemma_ending(s, ".rar"@, "rar"@);
    }
    assert(ends_with(s, ".gz"@) <==> has_word(s, "gz"@)) by {
        reveal_strlit(".gz");
        reveal_strlit("gz");
        assert(".gz"@ =~= seq!['.'] + "gz"@);
        lemma_ending(s, ".gz"@, "gz"@);
    }
    assert(ends_with(s, ".bz2"@) <==> has_word(s, "bz2"@)) by {
        reveal_strlit(".bz2");
        reveal_strlit("bz2");
        assert(".bz2"@ =~= seq!['.'] + "bz2"@);
        lemma_ending(s, ".bz2"@, "bz2"@);
    }
    assert(ends_with(s, ".xz"@) <==> has_word(s, "xz"@)) by {
        reveal_strlit(".xz");
        reveal_strlit("xz");
        assert(".xz"@ =~= seq!['.'] + "xz"@);
        lemma_ending(s, ".xz"@, "xz"@);
    }
    assert(ends_with(s, ".zst"@) <==> has_word(s, "zst"@)) by {
        reveal_strlit(".zst");
        reveal_strlit("zst");
        assert(".zst"@ =~= seq!['.'] + "zst"@);
        lemma_ending(s, ".zst"@, "zst"@);
    }
    assert(ends_with(s, ".mp4"@) <==> has_word(s, "mp4"@)) by {
        reveal_strlit(".mp4");
        reveal_strlit("mp4");
        assert(".mp4"@ =~= seq!['.'] + "mp4"@);
        lemma_ending(s, ".mp4"@, "mp4"@);
    }
    assert(ends_with(s, ".mkv"@) <==> has_word(s, "mkv"@)) by {
        reveal_strlit(".mkv");
        reveal_strlit("mkv");
        assert(".mkv"@ =~= seq!['.'] + "mkv"@);
        lemma_ending(s, ".mkv"@, "mkv"@);
    }
    assert(ends_with(s, ".avi"@) <==> has_word(s, "avi"@)) by {
        reveal_strlit(".avi");
        reveal_strlit("avi");
        assert(".avi"@ =~= seq!['.'] + "avi"@);
        lemma_ending(s, ".avi"@, "avi"@);
    }
    assert(ends_with(s, ".mov"@) <==> has_word(s, "mov"@)) by {
        reveal_strlit(".mov");
        reveal_strlit("mov");
        assert(".mov"@ =~= seq!['.'] + "mov"@);
        lemma_ending(s, ".mov"@, "mov"@);
    }
    assert(ends_with(s, ".mp3"@) <==> has_word(s, "mp3"@)) by {
        reveal_strlit(".mp3");
        reveal_strlit("mp3");
        assert(".mp3"@ =~= seq!['.'] + "mp3"@);
        lemma_ending(s, ".mp3"@, "mp3"@);
    }
    assert(ends_with(s, ".flac"@) <==> has_word(s, "flac"@)) by {
        reveal_strlit(".flac");
        reveal_strlit("flac");
        assert(".flac"@ =~= seq!['.'] + "flac"@);
        lemma_ending(s, ".flac"@, "flac"@);
    }
    assert(ends_with(s, ".jpg"@) <==> has_word(s, "jpg"@)) by {
        reveal_strlit(".jpg");
        reveal_strlit("jpg");
        assert(".jpg"@ =~= seq!['.'] + "jpg"@);
        lemma_ending(s, ".jpg"@, "jpg"@);
    }
}

proof fn lemma_words_b(s: Seq<char>)
    ensures
        ends_with(s, ".jpeg"@) <==> has_word(s, "jpeg"@),
        ends_with(s, ".png"@) <==> has_word(s, "png"@),
        ends_with(s, ".webp"@) <==> has_word(s, "webp"@),
        ends_with(s, ".gif"@) <==> has_word(s, "gif"@),
        ends_with(s, ".pdf"@) <==> has_word(s, "pdf"@),
        ends_with(s, ".exe"@) <==> has_word(s, "exe"@),
        ends_with(s, ".msi"@) <==> has_word(s, "msi"@),
        ends_with(s, ".iso"@) <==> has_word(s, "iso"@),
        ends_with(s, ".vhd"@) <==> has_word(s, "vhd"@),
        ends_with(s, ".vhdx"@) <==> has_word(s, "vhdx"@),
        ends_with(s, ".qcow2"@) <==> has_word(s, "qcow2"@),
        ends_with(s, ".parquet"@) <==> has_word(s, "parquet"@),
        ends_with(s, ".lz4"@) <==> has_word(s, "lz4"@),
        ends_with(s, ".br"@) <==> has_word(s, "br"@),
{
    assert(ends_with(s, ".jpeg"@) <==> has_word(s, "jpeg"@)) by {
        reveal_strlit(".jpeg");
        reveal_strlit("jpeg");
        assert(".jpeg"@ =~= seq!['.'] + "jpeg"@);
        lemma_ending(s, ".jpeg"@, "jpeg"@);
    }
    assert(ends_with(s, ".png"@) <==> has_word(s, "png"@)) by {
        reveal_strlit(".png");
        reveal_strlit("png");
        assert(".png"@ =~= seq!['.'] + "png"@);
        lemma_ending(s, ".png"@, "png"@);
    }
    assert(ends_with(s, ".webp"@) <==> has_word(s, "webp"@)) by {
        reveal_strlit(".webp");
        reveal_strlit("webp");
        assert(".webp"@ =~= seq!['.'] + "webp"@);
        lemma_ending(s, ".webp"@, "webp"@);
    }
    assert(ends_with(s, ".gif"@) <==> has_word(s, "gif"@)) by {
        reveal_strlit(".gif");
        reveal_strlit("gif");
        assert(".gif"@ =~= seq!['.'] + "gif"@);
        lemma_ending(s, ".gif"@, "gif"@);
    }
    assert(ends_with(s, ".pdf"@) <==> has_word(s, "pdf"@)) by {
        reveal_strlit(".pdf");
        reveal_strlit("pdf");
        assert(".pdf"@ =~= seq!['.'] + "pdf"@);
        lemma_ending(s, ".pdf"@, "pdf"@);
    }
    assert(ends_with(s, ".exe"@) <==> has_word(s, "exe"@)) by {
        reveal_strlit(".exe");
        reveal_strlit("exe");
        assert(".exe"@ =~= seq!['.'] + "exe"@);
        lemma_ending(s, ".exe"@, "exe"@);
    }
    assert(ends_with(s, ".msi"@) <==> has_word(s, "msi"@)) by {
        reveal_strlit(".msi");
        reveal_strlit("msi");
        assert(".msi"@ =~= seq!['.'] + "msi"@);
        lemma_ending(s, ".msi"@, "msi"@);
    }
    assert(ends_with(s, ".iso"@) <==> has_word(s, "iso"@)) by {
        reveal_strlit(".iso");
        reveal_strlit("iso");
        assert(".iso"@ =~= seq!['.'] + "iso"@);
        lemma_ending(s, ".iso"@, "iso"@);
    }
    assert(ends_with(s, ".vhd"@) <==> has_word(s, "vhd"@)) by {
        reveal_strlit(".vhd");
        reveal_strlit("vhd");
        assert(".vhd"@ =~= seq!['.'] + "vhd"@);
        lemma_ending(s, ".vhd"@, "vhd"@);
    }
    assert(ends_with(s, ".vhdx"@) <==> has_word(s, "vhdx"@)) by {
        reveal_strlit(".vhdx");
        reveal_strlit("vhdx");
        assert(".vhdx"@ =~= seq!['.'] + "vhdx"@);
        lemma_ending(s, ".vhdx"@, "vhdx"@);
    }
    assert(ends_with(s, ".qcow2"@) <==> has_word(s, "qcow2"@)) by {
        reveal_strlit(".qcow2");
        reveal_strlit("qcow2");
        assert(".qcow2"@ =~= seq!['.'] + "qcow2"@);
        lemma_ending(s, ".qcow2"@, "qcow2"@);
    }
    assert(ends_with(s, ".parquet"@) <==> has_word(s, "parquet"@)) by {
        reveal_strlit(".parquet");
        reveal_strlit("parquet");
        assert(".parquet"@ =~= seq!['.'] + "parquet"@);
        lemma_ending(s, ".parquet"@, "parquet"@);
    }
    assert(ends_with(s, ".lz4"@) <==> has_word(s, "lz4"@)) by {
        reveal_strlit(".lz4");
        reveal_strlit("lz4");
        assert(".lz4"@ =~= seq!['.'] + "lz4"@);
        lemma_ending(s, ".lz4"@, "lz4"@);
    }
    assert(ends_with(s, ".br"@) <==> has_word(s, "br"@)) by {
        reveal_strlit(".br");
        reveal_strlit("br");
        assert(".br"@ =~= seq!['.'] + "br"@);
        lemma_ending(s, ".br"@, "br"@);
    }
}

proof fn lemma_endings(s: Seq<char>)
    ensures
        packed_ending(s) <==> exists|k: int|
            0 <= k < s.len() && s[k] == '.' && is_packed_word(#[trigger] s.skip(k + 1)),
{
    lemma_words_a(s);
    lemma_words_b(s);
    assert forall|w: Seq<char>| is_packed_word(w) && #[trigger] has_word(s, w) implies exists|
        k: int,
    |
        0 <= k < s.len() && s[k] == '.' && is_packed_word(#[trigger] s.skip(k + 1)) by {
        let k = s.len() - w.len() - 1;
        assert(s.skip(k + 1) == w);
    }
    if exists|k: int|
        0 <= k < s.len() && s[k] == '.' && is_packed_word(#[trigger] s.skip(k + 1)) {
        let k = choose|k: int|
            0 <= k < s.len() && s[k] == '.' && is_packed_word(#[trigger] s.skip(k + 1));
        let w = s.skip(k + 1);
        assert(w.len() == s.len() - k - 1);
        assert(has_word(s, w));
    }
}

} // verus!

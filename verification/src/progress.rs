//! What a running transfer reports, and how amounts of data are worded.

use vstd::arithmetic::div_mod::lemma_fundamental_div_mod;
use vstd::prelude::*;
use vstd::string::*;

use crate::text::push_decimal;

verus! {

/// One file of a transfer, for its own progress bar.
#[derive(Clone, Debug)]
pub struct TransferFile {
    pub name: String,
    pub size: u64,
}

/// What a running transfer reports from time to time.
#[derive(Clone, Debug)]
pub struct TransferUpdate {
    pub sent_bytes: u64,
    pub total_bytes: u64,
    /// The file under way, the peer or a status.
    pub label: String,
    pub done: bool,
    pub error: Option<String>,
    /// The list of files, given once when the transfer starts.
    pub files: Option<Vec<TransferFile>>,
    /// Which of the files is under way.
    pub file_index: Option<usize>,
    /// How much of that file has been sent.
    pub file_sent: Option<u64>,
}

/// The error of a transfer that its sender cut off.
pub const STOPPED_BY_SENDER: &'static str = "Stopped by sender";

/// The error of a transfer that its receiver cut off.
pub const STOPPED_BY_RECEIVER: &'static str = "Stopped by receiver";

/// The error of a transfer that its receiver refused.
pub const DECLINED: &'static str = "Declined by receiver";

/// A report, with its texts as characters.
pub struct UpdateView {
    pub sent_bytes: u64,
    pub total_bytes: u64,
    pub label: Seq<char>,
    pub done: bool,
    pub error: Option<Seq<char>>,
    pub files: Option<Seq<(Seq<char>, u64)>>,
    pub file_index: Option<usize>,
    pub file_sent: Option<u64>,
}

/// Files by name and size.
pub open spec fn listed(files: Seq<TransferFile>) -> Seq<(Seq<char>, u64)> {
    files.map_values(|f: TransferFile| (f.name@, f.size))
}

impl View for TransferUpdate {
    type V = UpdateView;

    open spec fn view(&self) -> UpdateView {
        UpdateView {
            sent_bytes: self.sent_bytes,
            total_bytes: self.total_bytes,
            label: self.label@,
            done: self.done,
            error: match self.error {
                Some(e) => Some(e@),
                None => None,
            },
            files: match self.files {
                Some(f) => Some(listed(f@)),
                None => None,
            },
            file_index: self.file_index,
            file_sent: self.file_sent,
        }
    }
}

/// A report, if there is one.
pub open spec fn opt_update(u: Option<TransferUpdate>) -> Option<UpdateView> {
    match u {
        Some(u) => Some(u@),
        None => None,
    }
}

/// A report that changes the label alone: it ends nothing and names no file.
pub open spec fn status_report(sent: u64, total: u64, label: Seq<char>) -> UpdateView {
    UpdateView {
        sent_bytes: sent,
        total_bytes: total,
        label,
        done: false,
        error: None,
        files: None,
        file_index: None,
        file_sent: None,
    }
}

/// A report of a position within one of the files.
pub open spec fn file_report(
    sent: u64,
    total: u64,
    label: Seq<char>,
    file_index: usize,
    file_sent: u64,
) -> UpdateView {
    UpdateView {
        file_index: Some(file_index),
        file_sent: Some(file_sent),
        ..status_report(sent, total, label)
    }
}

/// The report that opens a transfer: its list of files, none of them begun.
pub open spec fn list_report(
    total: u64,
    label: Seq<char>,
    files: Seq<(Seq<char>, u64)>,
) -> UpdateView {
    UpdateView { files: Some(files), ..file_report(0, total, label, 0, 0) }
}

/// The last report of a transfer that went well.
pub open spec fn done_report(sent: u64, total: u64, label: Seq<char>) -> UpdateView {
    UpdateView { done: true, ..status_report(sent, total, label) }
}

/// The last report of a transfer that failed.
pub open spec fn error_report(sent: u64, total: u64, err: Seq<char>) -> UpdateView {
    UpdateView { error: Some(err), ..done_report(sent, total, Seq::empty()) }
}

/// A report of a position within one of the files.
pub fn report_file(
    sent: u64,
    total: u64,
    label: &str,
    file_index: usize,
    file_sent: u64,
) -> (r: TransferUpdate)
    ensures
        r@ == file_report(sent, total, label@, file_index, file_sent),
{
    TransferUpdate {
        sent_bytes: sent,
        total_bytes: total,
        label: label.to_owned(),
        done: false,
        error: None,
        files: None,
        file_index: Some(file_index),
        file_sent: Some(file_sent),
    }
}

/// The report that opens a transfer: its list of files, none of them begun.
pub fn report_list(total: u64, label: &str, files: Vec<TransferFile>) -> (r: TransferUpdate)
    ensures
        r@ == list_report(total, label@, listed(files@)),
        r.files == Some(files),
{
    TransferUpdate {
        sent_bytes: 0,
        total_bytes: total,
        label: label.to_owned(),
        done: false,
        error: None,
        files: Some(files),
        file_index: Some(0),
        file_sent: Some(0),
    }
}

/// The last report of a transfer that went well.
pub fn report_done(sent: u64, total: u64, label: &str) -> (r: TransferUpdate)
    ensures
        r@ == done_report(sent, total, label@),
{
    TransferUpdate {
        sent_bytes: sent,
        total_bytes: total,
        label: label.to_owned(),
        done: true,
        error: None,
        files: None,
        file_index: None,
        file_sent: None,
    }
}

/// The last report of a transfer that failed.
pub fn report_error(sent: u64, total: u64, err: &str) -> (r: TransferUpdate)
    ensures
        r@ == error_report(sent, total, err@),
{
    let r = TransferUpdate {
        sent_bytes: sent,
        total_bytes: total,
        label: String::new(),
        done: true,
        error: Some(err.to_owned()),
        files: None,
        file_index: None,
        file_sent: None,
    };
    assert(r.label@ =~= Seq::empty());
    r
}

/// A report that changes the label alone: it ends nothing and names no file.
pub fn report_status(sent: u64, total: u64, label: &str) -> (r: TransferUpdate)
    ensures
        r@ == status_report(sent, total, label@),
{
    TransferUpdate {
        sent_bytes: sent,
        total_bytes: total,
        label: label.to_owned(),
        done: false,
        error: None,
        files: None,
        file_index: None,
        file_sent: None,
    }
}

/// The report of a transfer whose sending failed: a connection that broke means
/// that the receiver cut it off.
pub fn report_failure(disconnected: bool, words: &str) -> (r: TransferUpdate)
    ensures
        r@ == error_report(
            0,
            0,
            if disconnected {
                STOPPED_BY_RECEIVER@
            } else {
                words@
            },
        ),
{
    if disconnected {
        report_error(0, 0, STOPPED_BY_RECEIVER)
    } else {
        report_error(0, 0, words)
    }
}

/// The report of a transfer whose receiving failed: a connection that broke means
/// that the sender cut it off.
pub fn report_recv_failure(disconnected: bool, words: &str) -> (r: TransferUpdate)
    ensures
        r@ == error_report(
            0,
            0,
            if disconnected {
                STOPPED_BY_SENDER@
            } else {
                words@
            },
        ),
{
    if disconnected {
        report_error(0, 0, STOPPED_BY_SENDER)
    } else {
        report_error(0, 0, words)
    }
}

/// The error of a transfer in which files did not match.
pub open spec fn mismatch_words(count: nat) -> Seq<char> {
    crate::text::decimal(count) + " checksum mismatches"@
}

/// The error of a transfer in which files did not match.
pub fn mismatch_text(count: u64) -> (r: String)
    ensures
        r@ == mismatch_words(count as nat),
{
    let mut r = String::new();
    push_decimal(&mut r, count);
    r.append(" checksum mismatches");
    assert(r@ =~= mismatch_words(count as nat));
    r
}

// ---------------------------------------------------------------------------
// Amounts of data in words
// ---------------------------------------------------------------------------

/// The whole number nearest to `n / d`; of two equally near the even one.
pub open spec fn nearest(n: nat, d: nat) -> nat {
    if 2 * (n % d) > d || (2 * (n % d) == d && (n / d) % 2 == 1) {
        n / d + 1
    } else {
        n / d
    }
}

/// The distance between neighbouring numbers of 53 significant bits at `n`.
pub open spec fn spacing(n: nat) -> nat
    decreases n,
{
    if n < 0x20_0000_0000_0000 {
        1
    } else {
        2 * spacing(n / 2)
    }
}

/// The number of 53 significant bits nearest to `n`: what a binary
/// floating-point number of double precision keeps of it.
pub open spec fn in_double(n: nat) -> nat {
    nearest(n, spacing(n)) * spacing(n)
}

/// How many bytes the unit that suits `n` bytes has: the largest power of 1024
/// that is not above `n`, at most 1024 to the fourth.
pub open spec fn unit_size(n: nat) -> nat {
    if n < 0x400 {
        1
    } else if n < 0x10_0000 {
        0x400
    } else if n < 0x4000_0000 {
        0x10_0000
    } else if n < 0x100_0000_0000 {
        0x4000_0000
    } else {
        0x100_0000_0000
    }
}

/// The name of the unit that suits `n` bytes.
pub open spec fn unit_name(n: nat) -> Seq<char> {
    if n < 0x400 {
        " B"@
    } else if n < 0x10_0000 {
        " KB"@
    } else if n < 0x4000_0000 {
        " MB"@
    } else if n < 0x100_0000_0000 {
        " GB"@
    } else {
        " TB"@
    }
}

/// Hundredths as a decimal number with two places.
pub open spec fn two_places(hundredths: nat) -> Seq<char> {
    crate::text::decimal(hundredths / 100) + seq![
        '.',
        crate::text::digit_char(hundredths / 10 % 10),
        crate::text::digit_char(hundredths % 10),
    ]
}

/// `n` bytes in words: a whole number of bytes, or two places of the unit that
/// suits, taken of what double precision keeps of `n`.
pub open spec fn bytes_in_words(n: nat) -> Seq<char> {
    let kept = in_double(n);
    if kept < 0x400 {
        crate::text::decimal(n) + unit_name(kept)
    } else {
        two_places(nearest(kept * 100, unit_size(kept))) + unit_name(kept)
    }
}

fn nearest_to(n: u128, d: u128) -> (r: u128)
    requires
        0 < d < 0x1000_0000_0000_0000_0000,
        n < 0x1_0000_0000_0000_0000_0000_0000_0000,
    ensures
        r as nat == nearest(n as nat, d as nat),
        r <= n / d + 1,
{
    let q: u128 = n / d;
    let rest: u128 = n % d;
    proof {
        lemma_fundamental_div_mod(n as int, d as int);
        assert(q <= n) by (nonlinear_arith)
            requires
                q == n / d,
                d > 0,
        ;
    }
    if 2 * rest > d || (2 * rest == d && q % 2 == 1) {
        q + 1
    } else {
        q
    }
}

proof fn lemma_spacing(n: nat)
    ensures
        1 <= spacing(n),
        spacing(n) <= n || spacing(n) == 1,
    decreases n,
{
    if n >= 0x20_0000_0000_0000 {
        lemma_spacing(n / 2);
    }
}

fn spacing_at(n: u64) -> (r: u64)
    ensures
        r as nat == spacing(n as nat),
    decreases n,
{
    proof {
        lemma_spacing(n as nat);
    }
    if n < 0x20_0000_0000_0000 {
        1
    } else {
        2 * spacing_at(n / 2)
    }
}

fn kept_in_double(n: u64) -> (r: u128)
    ensures
        r as nat == in_double(n as nat),
        r <= 2 * n + 1,
{
    let step: u128 = spacing_at(n) as u128;
    proof {
        lemma_spacing(n as nat);
        lemma_fundamental_div_mod(n as int, step as int);
    }
    let q: u128 = nearest_to(n as u128, step);
    assert(q * step <= 2 * n + 1) by {
        assert(q * step <= (n as int / step as int + 1) * step) by (nonlinear_arith)
            requires
                q <= n as int / step as int + 1,
                step >= 1,
        ;
        assert((n as int / step as int + 1) * step == step * (n as int / step as int) + step)
            by (nonlinear_arith);
    }
    q * step
}

/// `n` bytes in words, such as `12 B` or `3.50 MB`.
pub fn human_bytes(n: u64) -> (r: String)
    ensures
        r@ == bytes_in_words(n as nat),
{
    let kept: u128 = kept_in_double(n);
    let mut r = String::new();
    if kept < 0x400 {
        push_decimal(&mut r, n);
        r.append(" B");
        proof {
            assert(r@ =~= bytes_in_words(n as nat));
        }
        return r;
    }
    let size: u128 = if kept < 0x10_0000 {
        0x400
    } else if kept < 0x4000_0000 {
        0x10_0000
    } else if kept < 0x100_0000_0000 {
        0x4000_0000
    } else {
        0x100_0000_0000
    };
    let hundredths: u128 = nearest_to(kept * 100, size);
    let name = if kept < 0x10_0000 {
        " KB"
    } else if kept < 0x4000_0000 {
        " MB"
    } else if kept < 0x100_0000_0000 {
        " GB"
    } else {
        " TB"
    };
    assert(hundredths <= 0x1_0000_0000_0000) by {
        assert((kept * 100) / size as int <= 0xFFFF_FFFF_FFFF) by (nonlinear_arith)
            requires
                kept <= 0x2_0000_0000_0000_0000,
                size == 0x400 && kept < 0x10_0000 || size == 0x10_0000 && kept < 0x4000_0000 || size
                    == 0x4000_0000 && kept < 0x100_0000_0000 || size == 0x100_0000_0000,
        ;
    }
    let h: u64 = hundredths as u64;
    push_decimal(&mut r, h / 100);
    r.push('.');
    r.push(crate::text::digit((h / 10 % 10) as u8));
    r.push(crate::text::digit((h % 10) as u8));
    r.append(name);
    proof {
        assert(r@ =~= two_places(h as nat) + unit_name(kept as nat));
    }
    r
}

// ---------------------------------------------------------------------------
// What the reports and the words tell
// ---------------------------------------------------------------------------

/// Each report gives what it is handed and says nothing else: only a last report is
/// over, only a failure has an error, only the first has the list, and only one on a
/// file points at a file.
pub proof fn law_reports_tell_what_they_are_given(
    sent: u64,
    total: u64,
    words: Seq<char>,
    files: Seq<(Seq<char>, u64)>,
    k: usize,
    part: u64,
)
    ensures
        ({
            let u = status_report(sent, total, words);
            &&& u.sent_bytes == sent && u.total_bytes == total && u.label == words
            &&& !u.done && u.error is None && u.files is None
            &&& u.file_index is None && u.file_sent is None
        }),
        ({
            let u = file_report(sent, total, words, k, part);
            &&& u.sent_bytes == sent && u.total_bytes == total && u.label == words
            &&& !u.done && u.error is None && u.files is None
            &&& u.file_index == Some(k) && u.file_sent == Some(part)
        }),
        ({
            let u = list_report(total, words, files);
            &&& u.sent_bytes == 0 && u.total_bytes == total && u.label == words
            &&& !u.done && u.error is None && u.files == Some(files)
            &&& u.file_index == Some(0usize) && u.file_sent == Some(0u64)
        }),
        ({
            let u = done_report(sent, total, words);
            &&& u.sent_bytes == sent && u.total_bytes == total && u.label == words
            &&& u.done && u.error is None && u.files is None
            &&& u.file_index is None && u.file_sent is None
        }),
        ({
            let u = error_report(sent, total, words);
            &&& u.sent_bytes == sent && u.total_bytes == total && u.label.len() == 0
            &&& u.done && u.error == Some(words) && u.files is None
            &&& u.file_index is None && u.file_sent is None
        }),
{
}

/// The nearest multiple is at most half a step away, and of two as near it is the even
/// one.
pub proof fn law_nearest_is_near(n: nat, d: nat)
    requires
        d > 0,
    ensures
        2 * (nearest(n, d) * d - n) <= d,
        2 * (n - nearest(n, d) * d) <= d,
        2 * (nearest(n, d) * d - n) == d || 2 * (n - nearest(n, d) * d) == d ==> nearest(n, d) % 2
            == 0,
{
    let q = (n / d) as int;
    let r = (n % d) as int;
    lemma_fundamental_div_mod(n as int, d as int);
    assert(q * d == d * q) by (nonlinear_arith);
    assert((q + 1) * d == q * d + d) by (nonlinear_arith);
    assert(0 <= r < d) by (nonlinear_arith)
        requires
            r == n as int % d as int,
            d > 0,
    ;
}

/// The step at a number is 1 below two to the 53rd; from there on the number has 53
/// binary places before it.
pub proof fn law_steps_keep_53_places(n: nat)
    ensures
        n < 0x20_0000_0000_0000 ==> spacing(n) == 1,
        n >= 0x20_0000_0000_0000 ==> 0x10_0000_0000_0000 * spacing(n) <= n < 0x20_0000_0000_0000
            * spacing(n),
        n >= 0x20_0000_0000_0000 ==> spacing(n) % 2 == 0,
    decreases n,
{
    if n >= 0x20_0000_0000_0000 {
        law_steps_keep_53_places(n / 2);
    }
}

/// Numbers below two to the 53rd are kept as they are; others move by at most half a
/// step.
pub proof fn law_numbers_are_kept_nearly(n: nat)
    ensures
        n < 0x20_0000_0000_0000 ==> in_double(n) == n,
        2 * (in_double(n) - n) <= spacing(n),
        2 * (n - in_double(n)) <= spacing(n),
        exists|k: nat| in_double(n) == #[trigger] (k * spacing(n)),
{
    lemma_spacing(n);
    law_nearest_is_near(n, spacing(n));
    if n < 0x20_0000_0000_0000 {
        assert(n % 1 == 0 && n / 1 == n);
        assert(nearest(n, 1) * 1 == nearest(n, 1));
    }
    assert(in_double(n) == nearest(n, spacing(n)) * spacing(n));
}

/// Hundredths are written as the whole, a point and two digits.
pub proof fn law_hundredths_have_two_digits(whole: nat, a: nat, b: nat)
    requires
        a < 10,
        b < 10,
    ensures
        two_places(100 * whole + 10 * a + b) == crate::text::decimal(whole) + seq!['.']
            + crate::text::decimal(a) + crate::text::decimal(b),
{
    let h = 100 * whole + 10 * a + b;
    assert(h / 100 == whole);
    assert(h / 10 % 10 == a);
    assert(h % 10 == b);
    assert(two_places(h) =~= crate::text::decimal(whole) + seq!['.'] + crate::text::decimal(a)
        + crate::text::decimal(b));
}

/// Whether `w` tells `n` in steps of `unit` under the name `name`, to the nearest
/// hundredth.
pub open spec fn tells(w: Seq<char>, n: nat, unit: nat, name: Seq<char>) -> bool {
    exists|h: nat| #[trigger]
        two_places(h) + name == w && 2 * (h * unit - 100 * n) <= unit && 2 * (100 * n - h * unit)
            <= unit
}

/// An amount is told whole below 1024 bytes, and above that in the largest of KB, MB,
/// GB and TB that it reaches, each 1024 of the one before, to the nearest hundredth.
pub proof fn law_amount_is_told_in_its_unit(n: nat)
    requires
        n < 0x20_0000_0000_0000,
    ensures
        n < 1024 ==> bytes_in_words(n) == crate::text::decimal(n) + " B"@,
        1024 <= n < 1024 * 1024 ==> tells(bytes_in_words(n), n, 1024, " KB"@),
        1024 * 1024 <= n < 1024 * 1024 * 1024 ==> tells(
            bytes_in_words(n),
            n,
            1024 * 1024,
            " MB"@,
        ),
        1024 * 1024 * 1024 <= n < 1024 * 1024 * 1024 * 1024 ==> tells(
            bytes_in_words(n),
            n,
            1024 * 1024 * 1024,
            " GB"@,
        ),
        1024 * 1024 * 1024 * 1024 <= n ==> tells(
            bytes_in_words(n),
            n,
            1024 * 1024 * 1024 * 1024,
            " TB"@,
        ),
{
    law_numbers_are_kept_nearly(n);
    if n >= 1024 {
        let u = unit_size(n);
        let h = nearest(n * 100, u);
        law_nearest_is_near(n * 100, u);
        assert(bytes_in_words(n) == two_places(h) + unit_name(n));
        assert(tells(bytes_in_words(n), n, u, unit_name(n)));
    }
}

} // verus!

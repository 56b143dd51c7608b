//! The tab of one transfer: how reports change it.

use vstd::prelude::*;
use vstd::string::*;

use crate::progress::{
    TransferFile,
    TransferUpdate,
    UpdateView,
    STOPPED_BY_RECEIVER,
    STOPPED_BY_SENDER,
};
use crate::receiver::counted;
use crate::text::{chars_of, join_texts, same_text, string_of};

verus! {

// ---------------------------------------------------------------------------
// Names
// ---------------------------------------------------------------------------

/// How many characters of a name a tab shows.
pub const SHORT_NAME: usize = 10;

/// The first characters of a name; a word of its own where there is none.
pub open spec fn short_form(name: Seq<char>) -> Seq<char> {
    if name.len() == 0 {
        "device"@
    } else if name.len() <= SHORT_NAME {
        name
    } else {
        name.take(SHORT_NAME as int)
    }
}

/// The first characters of a name; a word of its own where there is none.
pub fn short_name(name: &str) -> (r: String)
    ensures
        r@ == short_form(name@),
{
    let v: Vec<char> = chars_of(name);
    let n: usize = if v.len() <= SHORT_NAME {
        v.len()
    } else {
        SHORT_NAME
    };
    if n == 0 {
        return "device".to_owned();
    }
    assert(v@.subrange(0, n as int) =~= short_form(name@));
    string_of(&v, 0, n)
}

/// A text cut to `max` characters, the last of which stands for what was cut.
pub open spec fn cut_form(s: Seq<char>, max: nat) -> Seq<char> {
    if s.len() <= max {
        s
    } else if max == 0 {
        seq!['\u{2026}']
    } else {
        s.take(max - 1).push('\u{2026}')
    }
}

/// A text cut to `max_chars` characters, the last of which stands for what was
/// cut.
pub fn trunc(s: &str, max_chars: usize) -> (r: String)
    ensures
        r@ == cut_form(s@, max_chars as nat),
{
    let v: Vec<char> = chars_of(s);
    if v.len() <= max_chars {
        return s.to_owned();
    }
    let n: usize = if max_chars == 0 {
        0
    } else {
        max_chars - 1
    };
    let mut r = string_of(&v, 0, n);
    r.push('\u{2026}');
    assert(r@ =~= cut_form(s@, max_chars as nat));
    r
}

/// What a path is called: its last name, or the whole of it where it has none.
pub fn file_name_of(last: Option<String>, whole: String) -> (r: String)
    ensures
        r@ == match last {
            Some(n) => n@,
            None => whole@,
        },
{
    match last {
        Some(n) => n,
        None => whole,
    }
}

// ---------------------------------------------------------------------------
// State
// ---------------------------------------------------------------------------

/// A file of a transfer, with how much of it has been sent.
#[derive(Debug)]
pub struct FileProg {
    pub name: String,
    pub size: u64,
    pub sent: u64,
}

/// A file of a transfer, with its name as characters.
pub struct FileProgView {
    pub name: Seq<char>,
    pub size: u64,
    pub sent: u64,
}

impl View for FileProg {
    type V = FileProgView;

    open spec fn view(&self) -> FileProgView {
        FileProgView { name: self.name@, size: self.size, sent: self.sent }
    }
}

/// The files as seen by contracts.
pub open spec fn progs(files: Seq<FileProg>) -> Seq<FileProgView> {
    files.map_values(|f: FileProg| f@)
}

/// The tab of one transfer. Times are in nanoseconds from a start that all of
/// them share.
#[derive(Debug)]
pub struct Tab {
    pub id: u64,
    pub target_name: String,
    pub target_ip: String,
    pub files: Vec<FileProg>,
    pub sent: u64,
    pub total: u64,
    pub label: String,
    /// The speed: so many bytes in so much time.
    pub speed_bytes: u64,
    pub speed_nanos: u64,
    pub started: u64,
    pub last_bytes: u64,
    pub last_tick: u64,
    pub done: bool,
    pub error: Option<String>,
    pub done_msg: String,
    /// Whether more reports can come.
    pub open: bool,
    /// Whether this side receives.
    pub incoming: bool,
    /// Whether the user of this side has to allow the transfer.
    pub pending: bool,
    /// Whether the other side has to.
    pub awaiting: bool,
    pub save_dir: String,
    /// How long the transfer took, once it is done.
    pub took: u64,
    /// When the first byte went.
    pub active_since: Option<u64>,
}

/// The tab of one transfer, with its texts as characters.
pub struct TabView {
    pub id: u64,
    pub target_name: Seq<char>,
    pub target_ip: Seq<char>,
    pub files: Seq<FileProgView>,
    pub sent: u64,
    pub total: u64,
    pub label: Seq<char>,
    pub speed_bytes: u64,
    pub speed_nanos: u64,
    pub started: u64,
    pub last_bytes: u64,
    pub last_tick: u64,
    pub done: bool,
    pub error: Option<Seq<char>>,
    pub done_msg: Seq<char>,
    pub open: bool,
    pub incoming: bool,
    pub pending: bool,
    pub awaiting: bool,
    pub save_dir: Seq<char>,
    pub took: u64,
    pub active_since: Option<u64>,
}

/// A text that may be absent, as characters.
pub open spec fn opt_text(s: Option<String>) -> Option<Seq<char>> {
    match s {
        Some(e) => Some(e@),
        None => None,
    }
}

impl View for Tab {
    type V = TabView;

    open spec fn view(&self) -> TabView {
        TabView {
            id: self.id,
            target_name: self.target_name@,
            target_ip: self.target_ip@,
            files: progs(self.files@),
            sent: self.sent,
            total: self.total,
            label: self.label@,
            speed_bytes: self.speed_bytes,
            speed_nanos: self.speed_nanos,
            started: self.started,
            last_bytes: self.last_bytes,
            last_tick: self.last_tick,
            done: self.done,
            error: opt_text(self.error),
            done_msg: self.done_msg@,
            open: self.open,
            incoming: self.incoming,
            pending: self.pending,
            awaiting: self.awaiting,
            save_dir: self.save_dir@,
            took: self.took,
            active_since: self.active_since,
        }
    }
}

/// A message that is shown over everything else.
#[derive(Debug)]
pub struct Popup {
    pub title: String,
    pub message: String,
    pub context: String,
    /// The tab that is closed with the message.
    pub tab_id: Option<u64>,
}

/// A message that is shown over everything else, with its texts as characters.
pub struct PopupView {
    pub title: Seq<char>,
    pub message: Seq<char>,
    pub context: Seq<char>,
    pub tab_id: Option<u64>,
}

impl View for Popup {
    type V = PopupView;

    open spec fn view(&self) -> PopupView {
        PopupView {
            title: self.title@,
            message: self.message@,
            context: self.context@,
            tab_id: self.tab_id,
        }
    }
}

/// A message that may be absent.
pub open spec fn opt_popup(p: Option<Popup>) -> Option<PopupView> {
    match p {
        Some(p) => Some(p@),
        None => None,
    }
}

// ---------------------------------------------------------------------------
// What a report does
// ---------------------------------------------------------------------------

/// Files none of which has been begun.
pub open spec fn unsent(files: Seq<(Seq<char>, u64)>) -> Seq<FileProgView> {
    files.map_values(|f: (Seq<char>, u64)| FileProgView { name: f.0, size: f.1, sent: 0 })
}

/// The file with all of it sent.
pub open spec fn whole(f: FileProgView) -> FileProgView {
    FileProgView { sent: f.size, ..f }
}

/// The files when `fs` bytes of file `fi` have been sent: those before it are
/// through.
pub open spec fn at_position(files: Seq<FileProgView>, fi: nat, fs: u64) -> Seq<FileProgView> {
    Seq::new(
        files.len(),
        |i: int|
            if i < fi {
                whole(files[i])
            } else if i == fi {
                FileProgView {
                    sent: if fs < files[i].size {
                        fs
                    } else {
                        files[i].size
                    },
                    ..files[i]
                }
            } else {
                files[i]
            },
    )
}

/// Where the first file of this name stands; their number where none has it.
pub open spec fn index_named(files: Seq<FileProgView>, name: Seq<char>) -> nat
    decreases files.len(),
{
    if files.len() == 0 || files[0].name == name {
        0
    } else {
        1 + index_named(files.drop_first(), name)
    }
}

/// The sizes of the first `n` files, counted in 64 bits.
pub open spec fn size_before(files: Seq<FileProgView>, n: nat) -> u64
    decreases n,
{
    if n == 0 {
        0
    } else {
        counted(size_before(files, (n - 1) as nat), files[n - 1].size)
    }
}

/// The files when `sent` bytes of the transfer have been sent and the file of
/// this name is under way: those before it are through.
pub open spec fn at_label(files: Seq<FileProgView>, label: Seq<char>, sent: u64) -> Seq<
    FileProgView,
> {
    let p = index_named(files, label);
    let base = size_before(files, p);
    let own: u64 = if sent > base {
        (sent - base) as u64
    } else {
        0
    };
    if p < files.len() {
        Seq::new(
            files.len(),
            |i: int|
                if i < p {
                    whole(files[i])
                } else if i == p {
                    FileProgView {
                        sent: if own > files[i].sent {
                            own
                        } else {
                            files[i].sent
                        },
                        ..files[i]
                    }
                } else {
                    files[i]
                },
        )
    } else {
        files
    }
}

/// The files after a report: by the position that it gives, else by its label.
pub open spec fn files_after(t: TabView, u: UpdateView) -> Seq<FileProgView> {
    let files = match u.files {
        Some(f) => unsent(f),
        None => t.files,
    };
    if u.file_index is Some && u.file_sent is Some {
        at_position(files, u.file_index->0 as nat, u.file_sent->0)
    } else if u.label.len() > 0 && files.len() > 0 {
        at_label(files, u.label, u.sent_bytes)
    } else {
        files
    }
}

/// The shortest time that a speed is taken over.
pub const MIN_NANOS: u64 = 1_000_000;

/// The time after which a speed is taken anew.
pub const TICK_NANOS: u64 = 50_000_000;

/// What lies between two times; nothing where the later is the earlier.
pub open spec fn between(from: u64, to: u64) -> u64 {
    if to > from {
        (to - from) as u64
    } else {
        0
    }
}

/// The time since the last speed was taken.
pub open spec fn tick_len(last_tick: u64, now: u64) -> u64 {
    if between(last_tick, now) > MIN_NANOS {
        between(last_tick, now)
    } else {
        MIN_NANOS
    }
}

/// Whether a speed is taken anew.
pub open spec fn ticks(last_tick: u64, now: u64, done: bool) -> bool {
    tick_len(last_tick, now) > TICK_NANOS || done
}

/// Whether an error says that one of the sides cut the transfer off.
pub open spec fn is_stop(e: Seq<char>) -> bool {
    e == STOPPED_BY_SENDER@ || e == STOPPED_BY_RECEIVER@
}

/// Whether the first byte goes with this report.
pub open spec fn wakes(t: TabView, u: UpdateView) -> bool {
    t.awaiting && (u.sent_bytes > 0 || u.done)
}

/// The tab after what a report says of the course of the transfer.
pub open spec fn moved(t: TabView, u: UpdateView, now: u64) -> TabView {
    let tick = ticks(t.last_tick, now, u.done);
    TabView {
        files: files_after(t, u),
        total: if u.total_bytes > 0 {
            u.total_bytes
        } else {
            t.total
        },
        speed_bytes: if tick {
            between(t.last_bytes, u.sent_bytes)
        } else {
            t.speed_bytes
        },
        speed_nanos: if tick {
            tick_len(t.last_tick, now)
        } else {
            t.speed_nanos
        },
        last_tick: if tick {
            now
        } else {
            t.last_tick
        },
        last_bytes: if tick {
            u.sent_bytes
        } else {
            t.last_bytes
        },
        sent: u.sent_bytes,
        label: if u.label.len() > 0 {
            u.label
        } else {
            t.label
        },
        awaiting: t.awaiting && !wakes(t, u),
        active_since: if wakes(t, u) {
            Some(now)
        } else {
            t.active_since
        },
        ..t
    }
}

/// The tab after the report that the transfer is over. The time that it took
/// leaves out the wait for approval.
pub open spec fn closed(t: TabView, error: Option<Seq<char>>, now: u64) -> TabView {
    let over = TabView {
        done: true,
        open: false,
        took: if t.took == 0 {
            between(
                match t.active_since {
                    Some(a) => a,
                    None => t.started,
                },
                now,
            )
        } else {
            t.took
        },
        ..t
    };
    match error {
        Some(e) => TabView { error: Some(e), ..over },
        None => TabView {
            done_msg: t.label,
            files: t.files.map_values(|f: FileProgView| whole(f)),
            sent: if t.total > t.sent {
                t.total
            } else {
                t.sent
            },
            ..over
        },
    }
}

/// The tab after a report.
pub open spec fn updated(t: TabView, u: UpdateView, now: u64) -> TabView {
    if u.done {
        closed(moved(t, u, now), u.error, now)
    } else {
        moved(t, u, now)
    }
}

/// The message that a report calls for: the first failure of a transfer that was
/// not cut off.
pub open spec fn popup_of(t: TabView, u: UpdateView) -> Option<PopupView> {
    if u.done && u.error is Some && t.took == 0 && !is_stop(u.error->0) {
        Some(
            PopupView {
                title: "Transfer failed"@,
                message: u.error->0,
                context: (if t.incoming {
                    "Receiving"@
                } else {
                    "Sending"@
                }) + " \u{b7} "@ + t.target_name,
                tab_id: Some(t.id),
            },
        )
    } else {
        None
    }
}

pub(crate) fn time_between(from: u64, to: u64) -> (r: u64)
    ensures
        r == between(from, to),
{
    if to > from {
        to - from
    } else {
        0
    }
}

/// Whether an error says that one of the sides cut the transfer off.
pub fn says_stop(e: &str) -> (r: bool)
    ensures
        r == is_stop(e@),
{
    same_text(e, STOPPED_BY_SENDER) || same_text(e, STOPPED_BY_RECEIVER)
}

fn unsent_files(files: &Vec<TransferFile>) -> (r: Vec<FileProg>)
    ensures
        progs(r@) == unsent(crate::progress::listed(files@)),
{
    let mut r: Vec<FileProg> = Vec::new();
    let mut i: usize = 0;
    while i < files.len()
        invariant
            i <= files@.len(),
            r@.len() == i,
            forall|j: int|
                0 <= j < i ==> (#[trigger] r@[j])@ == (FileProgView {
                    name: files@[j].name@,
                    size: files@[j].size,
                    sent: 0,
                }),
        decreases files@.len() - i,
    {
        r.push(FileProg { name: files[i].name.clone(), size: files[i].size, sent: 0 });
        i = i + 1;
    }
    assert(progs(r@) =~= unsent(crate::progress::listed(files@)));
    r
}

fn set_position(files: &mut Vec<FileProg>, fi: usize, fs: u64)
    ensures
        progs(final(files)@) == at_position(progs(old(files)@), fi as nat, fs),
{
    let ghost before = progs(files@);
    let mut i: usize = 0;
    while i < files.len() && i <= fi
        invariant
            before == progs(old(files)@),
            i <= files@.len() == before.len(),
            i <= fi + 1,
            forall|j: int|
                0 <= j < files@.len() ==> (#[trigger] files@[j])@ == if j < i {
                    at_position(before, fi as nat, fs)[j]
                } else {
                    before[j]
                },
        decreases files@.len() - i,
    {
        let size: u64 = files[i].size;
        if i < fi {
            files[i].sent = size;
        } else {
            files[i].sent = if fs < size {
                fs
            } else {
                size
            };
        }
        if i == fi {
            assert(progs(files@) =~= at_position(before, fi as nat, fs));
            return;
        }
        i = i + 1;
    }
    assert(progs(files@) =~= at_position(before, fi as nat, fs));
}

proof fn lemma_index_named(files: Seq<FileProgView>, name: Seq<char>, p: nat)
    requires
        p <= files.len(),
        forall|i: int| 0 <= i < p ==> (#[trigger] files[i]).name != name,
        p < files.len() ==> files[p as int].name == name,
    ensures
        index_named(files, name) == p,
    decreases p,
{
    if p > 0 {
        let rest = files.drop_first();
        assert forall|i: int| 0 <= i < p - 1 implies (#[trigger] rest[i]).name != name by {
            assert(files[i + 1].name != name);
        }
        assert(files[0].name != name);
        lemma_index_named(rest, name, (p - 1) as nat);
    }
}

fn set_label(files: &mut Vec<FileProg>, label: &str, sent: u64)
    ensures
        progs(final(files)@) == at_label(progs(old(files)@), label@, sent),
{
    let ghost before = progs(files@);
    let mut p: usize = 0;
    let mut base: u64 = 0;
    while p < files.len() && !same_text(files[p].name.as_str(), label)
        invariant
            p <= files@.len(),
            before == progs(files@),
            base == size_before(before, p as nat),
            forall|j: int| 0 <= j < p ==> (#[trigger] before[j]).name != label@,
        decreases files@.len() - p,
    {
        assert(before[p as int] == files@[p as int]@);
        base = base.wrapping_add(files[p].size);
        p = p + 1;
    }
    proof {
        if p < files@.len() {
            assert(before[p as int] == files@[p as int]@);
        }
        lemma_index_named(before, label@, p as nat);
    }
    if p == files.len() {
        return;
    }
    let own: u64 = if sent > base {
        sent - base
    } else {
        0
    };
    let mut i: usize = 0;
    while i < p
        invariant
            i <= p < files@.len() == before.len(),
            forall|j: int|
                0 <= j < files@.len() ==> (#[trigger] files@[j])@ == if j < i {
                    whole(before[j])
                } else {
                    before[j]
                },
        decreases p - i,
    {
        let size: u64 = files[i].size;
        files[i].sent = size;
        i = i + 1;
    }
    if own > files[p].sent {
        files[p].sent = own;
    }
    assert(progs(files@) =~= at_label(before, label@, sent));
}

fn set_whole(files: &mut Vec<FileProg>)
    ensures
        progs(final(files)@) == progs(old(files)@).map_values(|f: FileProgView| whole(f)),
{
    let ghost before = progs(files@);
    let mut i: usize = 0;
    while i < files.len()
        invariant
            i <= files@.len() == before.len(),
            forall|j: int|
                0 <= j < files@.len() ==> (#[trigger] files@[j])@ == if j < i {
                    whole(before[j])
                } else {
                    before[j]
                },
        decreases files@.len() - i,
    {
        let size: u64 = files[i].size;
        files[i].sent = size;
        i = i + 1;
    }
    assert(progs(files@) =~= before.map_values(|f: FileProgView| whole(f)));
}

impl Tab {
    /// What the tab is called.
    pub fn tab_label(&self) -> (r: String)
        ensures
            r@ == short_form(self.target_name@) + (if self.incoming {
                " recv"@
            } else {
                " send"@
            }),
    {
        let name = short_name(self.target_name.as_str());
        if self.incoming {
            join_texts(name.as_str(), " recv")
        } else {
            join_texts(name.as_str(), " send")
        }
    }

    fn apply_course(&mut self, u: &TransferUpdate, now: u64)
        ensures
            final(self)@ == moved(old(self)@, u@, now),
    {
        if let Some(files) = &u.files {
            self.files = unsent_files(files);
        }
        if u.total_bytes > 0 {
            self.total = u.total_bytes;
        }
        let mut placed: bool = false;
        if let Some(fi) = u.file_index {
            if let Some(fs) = u.file_sent {
                set_position(&mut self.files, fi, fs);
                placed = true;
            }
        }
        if !placed && !u.label.as_str().is_empty() && self.files.len() > 0 {
            set_label(&mut self.files, u.label.as_str(), u.sent_bytes);
        }
        let gap: u64 = time_between(self.last_tick, now);
        let dt: u64 = if gap > MIN_NANOS {
            gap
        } else {
            MIN_NANOS
        };
        if dt > TICK_NANOS || u.done {
            self.speed_bytes = time_between(self.last_bytes, u.sent_bytes);
            self.speed_nanos = dt;
            self.last_tick = now;
            self.last_bytes = u.sent_bytes;
        }
        self.sent = u.sent_bytes;
        if !u.label.as_str().is_empty() {
            self.label = u.label.clone();
        }
        if (u.sent_bytes > 0 || u.done) && self.awaiting {
            self.awaiting = false;
            self.active_since = Some(now);
        }
        assert(self@.label =~= moved(old(self)@, u@, now).label);
        assert(self@.files =~= moved(old(self)@, u@, now).files);
    }

    fn apply_end(&mut self, error: &Option<String>, now: u64)
        ensures
            final(self)@ == closed(old(self)@, opt_text(*error), now),
    {
        self.done = true;
        self.open = false;
        if self.took == 0 {
            let from: u64 = match self.active_since {
                Some(a) => a,
                None => self.started,
            };
            self.took = time_between(from, now);
        }
        match error {
            Some(e) => {
                self.error = Some(e.clone());
            },
            None => {
                self.done_msg = self.label.clone();
                set_whole(&mut self.files);
                if self.total > self.sent {
                    self.sent = self.total;
                }
            },
        }
    }

    /// Takes a report that came at the time `now`, and says which message it
    /// calls for.
    pub fn apply(&mut self, u: &TransferUpdate, now: u64) -> (r: Option<Popup>)
        ensures
            final(self)@ == updated(old(self)@, u@, now),
            opt_popup(r) == popup_of(old(self)@, u@),
    {
        let first: bool = self.took == 0;
        self.apply_course(u, now);
        if !u.done {
            return None;
        }
        self.apply_end(&u.error, now);
        match &u.error {
            None => None,
            Some(e) => {
                if first && !says_stop(e.as_str()) {
                    let mut context = if self.incoming {
                        "Receiving".to_owned()
                    } else {
                        "Sending".to_owned()
                    };
                    context.append(" \u{b7} ");
                    context.append(self.target_name.as_str());
                    Some(
                        Popup {
                            title: "Transfer failed".to_owned(),
                            message: e.clone(),
                            context,
                            tab_id: Some(self.id),
                        },
                    )
                } else {
                    None
                }
            },
        }
    }
}

// ---------------------------------------------------------------------------
// What holds of a tab
// ---------------------------------------------------------------------------

/// Whether no file has more bytes sent than it has.
pub open spec fn within_sizes(files: Seq<FileProgView>) -> bool {
    forall|i: int| 0 <= i < files.len() ==> (#[trigger] files[i]).sent <= files[i].size
}

/// A transfer that ended well shows all of each file as sent, and no less than
/// its total.
pub proof fn law_success_shows_all_sent(t: TabView, u: UpdateView, now: u64, i: int)
    requires
        u.done,
        u.error is None,
        0 <= i < updated(t, u, now).files.len(),
    ensures
        updated(t, u, now).files[i].sent == updated(t, u, now).files[i].size,
        updated(t, u, now).sent >= updated(t, u, now).total,
        updated(t, u, now).done && !updated(t, u, now).open,
{
}

/// A report that gives a position keeps every file within its size.
pub proof fn law_positions_stay_within_sizes(t: TabView, u: UpdateView, now: u64)
    requires
        within_sizes(t.files),
        u.file_index is Some,
        u.file_sent is Some,
    ensures
        within_sizes(updated(t, u, now).files),
{
}

/// A tab that is over stays over, and a transfer that has begun does not wait
/// again.
pub proof fn law_tabs_only_move_on(t: TabView, u: UpdateView, now: u64)
    ensures
        t.done ==> updated(t, u, now).done,
        !t.awaiting ==> !updated(t, u, now).awaiting,
        updated(t, u, now).id == t.id,
        updated(t, u, now).incoming == t.incoming,
        updated(t, u, now).pending == t.pending,
{
}

/// A speed that is taken anew is what was sent since the last one was taken, over
/// the time since then; from there on the next one counts. At a constant rate it is
/// that rate.
pub proof fn law_speed_is_taken_since_the_last(t: TabView, u: UpdateView, now: u64, rate: nat)
    requires
        now > t.last_tick + 50_000_000,
        t.last_bytes <= u.sent_bytes,
    ensures
        ({
            let after = updated(t, u, now);
            &&& after.speed_bytes == u.sent_bytes - t.last_bytes
            &&& after.speed_nanos == now - t.last_tick
            &&& after.last_tick == now
            &&& after.last_bytes == u.sent_bytes
            &&& u.sent_bytes - t.last_bytes == rate * (now - t.last_tick) as nat
                ==> after.speed_bytes == rate * after.speed_nanos as nat
        }),
{
}

/// Of two reports that are more than 50 ms apart, the first of which had a speed
/// taken, the second shows what was sent between them, over the time between them.
pub proof fn law_speed_lies_between_two_reports(
    t: TabView,
    first: UpdateView,
    t1: u64,
    second: UpdateView,
    t2: u64,
)
    requires
        first.done || t1 > t.last_tick + 50_000_000,
        t2 > t1 + 50_000_000,
        first.sent_bytes <= second.sent_bytes,
    ensures
        ({
            let after = updated(updated(t, first, t1), second, t2);
            &&& after.speed_bytes == second.sent_bytes - first.sent_bytes
            &&& after.speed_nanos == t2 - t1
        }),
{
}

/// Until 50 ms have gone by a report that does not end the transfer leaves the
/// speed as it is. One that ends it has it taken, over no less than a millisecond.
pub proof fn law_speed_stands_for_a_while(t: TabView, u: UpdateView, now: u64)
    requires
        now <= t.last_tick + 50_000_000,
    ensures
        !u.done ==> {
            let after = updated(t, u, now);
            &&& after.speed_bytes == t.speed_bytes && after.speed_nanos == t.speed_nanos
            &&& after.last_tick == t.last_tick && after.last_bytes == t.last_bytes
        },
        u.done ==> {
            let after = updated(t, u, now);
            &&& after.speed_bytes == if u.sent_bytes > t.last_bytes {
                u.sent_bytes - t.last_bytes
            } else {
                0
            }
            &&& after.speed_nanos == if now > t.last_tick + 1_000_000 {
                now - t.last_tick
            } else {
                1_000_000
            }
        },
{
}

/// A report that gives a position moves the bars there: the files before it are
/// through, its own stands at the bytes given, as far as the file has them, and
/// those behind it are as they were. No file changes its name or size.
pub proof fn law_bars_follow_the_position(
    t: TabView,
    u: UpdateView,
    now: u64,
    fi: usize,
    fs: u64,
    i: int,
)
    requires
        !u.done,
        u.files is None,
        u.file_index == Some(fi),
        u.file_sent == Some(fs),
        0 <= i < t.files.len(),
    ensures
        ({
            let after = updated(t, u, now).files;
            &&& after.len() == t.files.len()
            &&& after[i].name == t.files[i].name && after[i].size == t.files[i].size
            &&& i < fi ==> after[i].sent == t.files[i].size
            &&& i == fi && fs <= t.files[i].size ==> after[i].sent == fs
            &&& i == fi && fs > t.files[i].size ==> after[i].sent == t.files[i].size
            &&& i > fi ==> after[i].sent == t.files[i].sent
        }),
{
}

/// A list in a report is the list of the tab from there on, in its order, with
/// nothing sent of the files behind the one under way.
pub proof fn law_list_is_taken_over(t: TabView, u: UpdateView, now: u64, i: int)
    requires
        !u.done,
        u.files is Some,
        u.file_index == Some(0usize),
        u.file_sent == Some(0u64),
        0 <= i < u.files->0.len(),
    ensures
        ({
            let after = updated(t, u, now).files;
            &&& after.len() == u.files->0.len()
            &&& after[i].name == u.files->0[i].0
            &&& after[i].size == u.files->0[i].1
            &&& after[i].sent == 0
        }),
{
}

/// How many bytes the first `n` files have.
pub open spec fn bytes_before(files: Seq<FileProgView>, n: nat) -> nat
    decreases n,
{
    if n == 0 {
        0
    } else {
        bytes_before(files, (n - 1) as nat) + files[n - 1].size as nat
    }
}

proof fn lemma_size_before(files: Seq<FileProgView>, n: nat)
    requires
        bytes_before(files, n) <= u64::MAX,
    ensures
        size_before(files, n) == bytes_before(files, n),
    decreases n,
{
    if n > 0 {
        lemma_size_before(files, (n - 1) as nat);
    }
}

/// A report without a position moves the bars by the file that it names: those
/// before it are through, and of its own has been sent what is beyond them, where
/// that is more than was shown; those behind it are as they were.
pub proof fn law_bars_follow_the_name(t: TabView, u: UpdateView, now: u64, p: int, i: int)
    requires
        !u.done,
        u.files is None,
        u.file_index is None || u.file_sent is None,
        u.label.len() > 0,
        0 <= p < t.files.len(),
        t.files[p].name == u.label,
        forall|j: int| 0 <= j < p ==> (#[trigger] t.files[j]).name != u.label,
        bytes_before(t.files, p as nat) <= u64::MAX,
        0 <= i < t.files.len(),
    ensures
        ({
            let after = updated(t, u, now).files;
            let own = u.sent_bytes - bytes_before(t.files, p as nat);
            &&& after.len() == t.files.len()
            &&& after[i].name == t.files[i].name && after[i].size == t.files[i].size
            &&& i < p ==> after[i].sent == t.files[i].size
            &&& i == p ==> after[i].sent == if own > t.files[i].sent {
                own
            } else {
                t.files[i].sent as int
            }
            &&& i > p ==> after[i].sent == t.files[i].sent
        }),
{
    lemma_index_named(t.files, u.label, p as nat);
    lemma_size_before(t.files, p as nat);
}

/// A report that gives neither a position nor the name of a file leaves the bars.
pub proof fn law_bars_stay_without_a_file(t: TabView, u: UpdateView, now: u64)
    requires
        !u.done,
        u.files is None,
        u.file_index is None || u.file_sent is None,
        forall|j: int| 0 <= j < t.files.len() ==> (#[trigger] t.files[j]).name != u.label,
    ensures
        updated(t, u, now).files == t.files,
{
    lemma_index_named(t.files, u.label, t.files.len());
}

/// A tab shows what was last reported: the bytes sent, the total and the label
/// where the report gives them. The wait for the other side ends with the first
/// byte, or with the transfer, and its time is kept.
pub proof fn law_tab_shows_the_last_report(t: TabView, u: UpdateView, now: u64)
    requires
        !u.done,
    ensures
        ({
            let after = updated(t, u, now);
            &&& after.sent == u.sent_bytes
            &&& after.total == if u.total_bytes == 0 {
                t.total
            } else {
                u.total_bytes
            }
            &&& after.label == if u.label.len() == 0 {
                t.label
            } else {
                u.label
            }
            &&& after.awaiting <==> t.awaiting && u.sent_bytes == 0
            &&& t.awaiting && u.sent_bytes > 0 ==> after.active_since == Some(now)
            &&& !t.awaiting || u.sent_bytes == 0 ==> after.active_since == t.active_since
            &&& after.done == t.done && after.open == t.open && after.error == t.error
            &&& after.took == t.took && after.done_msg == t.done_msg
            &&& after.started == t.started && after.target_name == t.target_name
            &&& after.target_ip == t.target_ip && after.save_dir == t.save_dir
        }),
{
}

/// The report that ends a transfer sets its tab: it is over, with the error if
/// there is one and with the last label if there is none; the first such report
/// has the time taken, from the first byte where that is known and else from the
/// start.
pub proof fn law_tab_shows_the_end(t: TabView, u: UpdateView, now: u64)
    requires
        u.done,
    ensures
        ({
            let after = updated(t, u, now);
            let from = if t.awaiting {
                now
            } else if t.active_since is Some {
                t.active_since->0
            } else {
                t.started
            };
            &&& after.done && !after.open && !after.awaiting
            &&& u.error is Some ==> after.error == u.error && after.sent == u.sent_bytes
                && after.done_msg == t.done_msg
            &&& u.error is None ==> {
                &&& after.error == t.error
                &&& after.done_msg == if u.label.len() == 0 {
                    t.label
                } else {
                    u.label
                }
                &&& after.sent >= u.sent_bytes && after.sent >= after.total
                &&& after.sent == u.sent_bytes || after.sent == after.total
            }
            &&& t.took != 0 ==> after.took == t.took
            &&& t.took == 0 && from <= now ==> after.took == now - from
        }),
{
}

/// A message is called for by the first report that ends a transfer with an error,
/// unless one of the sides cut it off; it gives the error, which way the transfer
/// went and with whom, and the tab that is closed with it.
pub proof fn law_failures_call_for_a_message(t: TabView, u: UpdateView)
    ensures
        popup_of(t, u) is Some <==> u.done && t.took == 0 && u.error is Some && u.error->0
            != "Stopped by sender"@ && u.error->0 != "Stopped by receiver"@,
        popup_of(t, u) matches Some(p) ==> {
            &&& p.message == u.error->0
            &&& p.tab_id == Some(t.id)
            &&& p.title == "Transfer failed"@
            &&& t.incoming ==> p.context == "Receiving"@ + " \u{b7} "@ + t.target_name
            &&& !t.incoming ==> p.context == "Sending"@ + " \u{b7} "@ + t.target_name
        },
{
}

/// A short name is how the name begins, and all of it where it has no more than
/// ten characters; only an empty name has another.
pub proof fn law_short_name_begins_the_name(name: Seq<char>)
    requires
        name.len() > 0,
    ensures
        short_form(name).is_prefix_of(name),
        name.len() <= 10 ==> short_form(name) == name,
        name.len() > 10 ==> short_form(name).len() == 10,
{
}

/// A text that is cut is as long as there is room, begins as the text does and ends
/// with an ellipsis; one for which there is room is not changed.
pub proof fn law_cut_text_begins_the_text(s: Seq<char>, max: nat)
    ensures
        s.len() <= max ==> cut_form(s, max) == s,
        s.len() > max ==> {
            let c = cut_form(s, max);
            &&& c.len() == if max == 0 {
                1
            } else {
                max
            }
            &&& c.last() == '\u{2026}'
            &&& c.drop_last().is_prefix_of(s)
        },
{
}

} // verus!

//! The state of the window: what is chosen, what is under way and what is shown.
//! Times are in nanoseconds from a start that all of them share.

use vstd::prelude::*;
use vstd::string::*;

use crate::discovery::Peer;
use crate::progress::{TransferUpdate, UpdateView};
use crate::protocol::DEFAULT_PORT;
use crate::receiver::{counted, RecvOptions};
use crate::sender::SendOptions;
use crate::settings::{law_settings_read_back, settings_in, settings_words, Settings, SettingsView};
use crate::tab::{
    between,
    is_stop,
    opt_popup,
    opt_text,
    popup_of,
    progs,
    says_stop,
    tick_len,
    ticks,
    time_between,
    unsent,
    updated,
    FileProg,
    Popup,
    PopupView,
    Tab,
    TabView,
    MIN_NANOS,
    TICK_NANOS,
};
use crate::text::{join_texts, same_text, trim, trimmed};

verus! {

// ---------------------------------------------------------------------------
// Parts
// ---------------------------------------------------------------------------

/// Which colours the window has.
#[derive(Clone, Copy, Debug, PartialEq, Eq, Structural)]
pub enum Theme {
    Dark,
    Light,
    System,
}

impl Theme {
    /// What the choice is called.
    pub fn label(self) -> (r: &'static str)
        ensures
            r@ == match self {
                Theme::Dark => "Dark"@,
                Theme::Light => "Light"@,
                Theme::System => "System"@,
            },
    {
        match self {
            Theme::Dark => "Dark",
            Theme::Light => "Light",
            Theme::System => "System",
        }
    }
}

/// Whether the window is dark; what the system says, where it says anything,
/// counts only where the user leaves it to the system.
pub open spec fn wants_dark(theme: Theme, system_dark: Option<bool>) -> bool {
    match theme {
        Theme::Dark => true,
        Theme::Light => false,
        Theme::System => match system_dark {
            Some(d) => d,
            None => true,
        },
    }
}

/// What the window shows.
#[derive(Clone, Copy, Debug, PartialEq, Eq, Structural)]
pub enum Page {
    Send,
    Receive,
    /// The tab with this number.
    Transfer(u64),
}

/// A number by which pages are told apart.
pub open spec fn key_of(p: Page) -> u64 {
    match p {
        Page::Send => 0,
        Page::Receive => 1,
        Page::Transfer(id) => ((2 + (id as nat * 1000003) % 0x1_0000_0000_0000_0000)
            % 0x1_0000_0000_0000_0000) as u64,
    }
}

/// A number by which pages are told apart.
pub fn page_key(p: Page) -> (r: u64)
    ensures
        r == key_of(p),
{
    match p {
        Page::Send => 0,
        Page::Receive => 1,
        Page::Transfer(id) => {
            let wide: u128 = (id as u128 * 1000003) % 0x1_0000_0000_0000_0000;
            ((2 + wide) % 0x1_0000_0000_0000_0000) as u64
        },
    }
}

/// A file or folder that is to be sent; the number stands for where it lies.
#[derive(Debug)]
pub struct Picked {
    pub id: usize,
    pub name: String,
    pub size: u64,
    pub is_dir: bool,
}

/// A file or folder that is to be sent, with its name as characters.
pub struct PickedView {
    pub id: usize,
    pub name: Seq<char>,
    pub size: u64,
    pub is_dir: bool,
}

impl View for Picked {
    type V = PickedView;

    open spec fn view(&self) -> PickedView {
        PickedView { id: self.id, name: self.name@, size: self.size, is_dir: self.is_dir }
    }
}

/// A path that the user names, with whether there is anything.
#[derive(Debug)]
pub struct Candidate {
    pub there: bool,
    pub what: Picked,
}

/// What is to be sent, as seen by contracts.
pub open spec fn picks(files: Seq<Picked>) -> Seq<PickedView> {
    files.map_values(|f: Picked| f@)
}

/// The sizes of what is to be sent, counted in 64 bits.
pub open spec fn picked_size(files: Seq<PickedView>) -> u64
    decreases files.len(),
{
    if files.len() == 0 {
        0
    } else {
        counted(picked_size(files.drop_last()), files.last().size)
    }
}

/// Whether a path is among what is to be sent.
pub open spec fn has_pick(files: Seq<PickedView>, id: usize) -> bool {
    exists|i: int| 0 <= i < files.len() && (#[trigger] files[i]).id == id
}

/// What is to be sent after the user named paths: those that are there, and are
/// not in the list yet, are added in order.
pub open spec fn picks_after(files: Seq<PickedView>, named: Seq<Candidate>) -> Seq<PickedView>
    decreases named.len(),
{
    if named.len() == 0 {
        files
    } else {
        let before = picks_after(files, named.drop_last());
        let c = named.last();
        if c.there && !has_pick(before, c.what.id) {
            before.push(c.what@)
        } else {
            before
        }
    }
}

/// How far the transfer that arrives has come.
#[derive(Debug)]
pub struct RecvProg {
    pub sent: u64,
    pub total: u64,
    pub label: String,
    pub speed_bytes: u64,
    pub speed_nanos: u64,
    pub last_bytes: u64,
    pub last_tick: u64,
    pub last_done: String,
}

/// How far the transfer that arrives has come, with its texts as characters.
pub struct RecvProgView {
    pub sent: u64,
    pub total: u64,
    pub label: Seq<char>,
    pub speed_bytes: u64,
    pub speed_nanos: u64,
    pub last_bytes: u64,
    pub last_tick: u64,
    pub last_done: Seq<char>,
}

impl View for RecvProg {
    type V = RecvProgView;

    open spec fn view(&self) -> RecvProgView {
        RecvProgView {
            sent: self.sent,
            total: self.total,
            label: self.label@,
            speed_bytes: self.speed_bytes,
            speed_nanos: self.speed_nanos,
            last_bytes: self.last_bytes,
            last_tick: self.last_tick,
            last_done: self.last_done@,
        }
    }
}

/// Nothing has arrived yet.
pub open spec fn recv_idle(now: u64) -> RecvProgView {
    RecvProgView {
        sent: 0,
        total: 0,
        label: Seq::empty(),
        speed_bytes: 0,
        speed_nanos: MIN_NANOS,
        last_bytes: 0,
        last_tick: now,
        last_done: Seq::empty(),
    }
}

impl RecvProg {
    pub fn idle(now: u64) -> (r: RecvProg)
        ensures
            r@ == recv_idle(now),
    {
        let r = RecvProg {
            sent: 0,
            total: 0,
            label: String::new(),
            speed_bytes: 0,
            speed_nanos: MIN_NANOS,
            last_bytes: 0,
            last_tick: now,
            last_done: String::new(),
        };
        assert(r@.label =~= Seq::empty());
        assert(r@.last_done =~= Seq::empty());
        r
    }
}

/// What a sender offers: a file, or a directory.
#[derive(Debug)]
pub struct OfferFile {
    pub is_dir: bool,
    pub rel: String,
    pub size: u64,
}

/// The files of an offer, in order.
pub open spec fn offered_files(offer: Seq<OfferFile>) -> Seq<(Seq<char>, u64)>
    decreases offer.len(),
{
    if offer.len() == 0 {
        Seq::empty()
    } else {
        let before = offered_files(offer.drop_last());
        if offer.last().is_dir {
            before
        } else {
            before.push((offer.last().rel@, offer.last().size))
        }
    }
}

/// A report with the time at which it came.
#[derive(Debug)]
pub struct Stamped {
    pub update: TransferUpdate,
    pub at: u64,
}

/// Reports with their times, as seen by contracts.
pub open spec fn stamps(us: Seq<Stamped>) -> Seq<(UpdateView, u64)> {
    us.map_values(|s: Stamped| (s.update@, s.at))
}

// ---------------------------------------------------------------------------
// The whole
// ---------------------------------------------------------------------------

/// The state of the window.
#[derive(Debug)]
pub struct Gui {
    pub page: Page,
    pub next_id: u64,
    pub files: Vec<Picked>,
    pub files_size: u64,
    pub target_name: String,
    pub target_ip: String,
    pub port: u16,
    pub streams: u8,
    pub checksum: bool,
    pub compress: bool,
    pub overwrite: bool,
    pub send_error: String,
    pub peers: Vec<Peer>,
    pub scanning: bool,
    pub last_scan: Option<u64>,
    pub tabs: Vec<Tab>,
    pub out_dir: String,
    pub recv_port: u16,
    pub recv_overwrite: bool,
    pub listening: bool,
    /// Whether more reports of what arrives can come.
    pub recv_open: bool,
    pub recv: RecvProg,
    pub recv_error: String,
    pub theme: Theme,
    pub applied_dark: bool,
    pub show_settings: bool,
    pub popup: Option<Popup>,
    pub last_page_key: u64,
    /// When the page was last changed.
    pub page_born: u64,
}

/// The state of the window, with its texts as characters.
pub struct GuiView {
    pub page: Page,
    pub next_id: u64,
    pub files: Seq<PickedView>,
    pub files_size: u64,
    pub target_name: Seq<char>,
    pub target_ip: Seq<char>,
    pub port: u16,
    pub streams: u8,
    pub checksum: bool,
    pub compress: bool,
    pub overwrite: bool,
    pub send_error: Seq<char>,
    pub peers: Seq<Peer>,
    pub scanning: bool,
    pub last_scan: Option<u64>,
    pub tabs: Seq<TabView>,
    pub out_dir: Seq<char>,
    pub recv_port: u16,
    pub recv_overwrite: bool,
    pub listening: bool,
    pub recv_open: bool,
    pub recv: RecvProgView,
    pub recv_error: Seq<char>,
    pub theme: Theme,
    pub applied_dark: bool,
    pub show_settings: bool,
    pub popup: Option<PopupView>,
    pub last_page_key: u64,
    pub page_born: u64,
}

/// The tabs as seen by contracts.
pub open spec fn tabs_seen(tabs: Seq<Tab>) -> Seq<TabView> {
    tabs.map_values(|t: Tab| t@)
}

impl View for Gui {
    type V = GuiView;

    open spec fn view(&self) -> GuiView {
        GuiView {
            page: self.page,
            next_id: self.next_id,
            files: picks(self.files@),
            files_size: self.files_size,
            target_name: self.target_name@,
            target_ip: self.target_ip@,
            port: self.port,
            streams: self.streams,
            checksum: self.checksum,
            compress: self.compress,
            overwrite: self.overwrite,
            send_error: self.send_error@,
            peers: self.peers@,
            scanning: self.scanning,
            last_scan: self.last_scan,
            tabs: tabs_seen(self.tabs@),
            out_dir: self.out_dir@,
            recv_port: self.recv_port,
            recv_overwrite: self.recv_overwrite,
            listening: self.listening,
            recv_open: self.recv_open,
            recv: self.recv@,
            recv_error: self.recv_error@,
            theme: self.theme,
            applied_dark: self.applied_dark,
            show_settings: self.show_settings,
            popup: opt_popup(self.popup),
            last_page_key: self.last_page_key,
            page_born: self.page_born,
        }
    }
}

/// Whether no two tabs have one number, and all numbers were given out.
pub open spec fn numbered(tabs: Seq<TabView>, next_id: u64) -> bool {
    &&& forall|i: int| 0 <= i < tabs.len() ==> (#[trigger] tabs[i]).id < next_id
    &&& forall|i: int, j: int|
        0 <= i < j < tabs.len() ==> (#[trigger] tabs[i]).id != (#[trigger] tabs[j]).id
}

impl GuiView {
    /// What holds of the window at every step.
    pub open spec fn wf(self) -> bool {
        &&& numbered(self.tabs, self.next_id)
        &&& self.files_size == picked_size(self.files)
    }
}

/// The state in which the window opens.
pub open spec fn gui_start(out_dir: Seq<char>, now: u64) -> GuiView {
    GuiView {
        page: Page::Send,
        next_id: 1,
        files: Seq::empty(),
        files_size: 0,
        target_name: Seq::empty(),
        target_ip: Seq::empty(),
        port: DEFAULT_PORT,
        streams: 4,
        checksum: true,
        compress: false,
        overwrite: true,
        send_error: Seq::empty(),
        peers: Seq::empty(),
        scanning: true,
        last_scan: None,
        tabs: Seq::empty(),
        out_dir,
        recv_port: DEFAULT_PORT,
        recv_overwrite: true,
        listening: false,
        recv_open: false,
        recv: recv_idle(now),
        recv_error: Seq::empty(),
        theme: Theme::System,
        applied_dark: true,
        show_settings: false,
        popup: None,
        last_page_key: 0,
        page_born: now,
    }
}

impl Gui {
    /// The state in which the window opens.
    pub fn new(out_dir: String, now: u64) -> (r: Gui)
        ensures
            r@ == gui_start(out_dir@, now),
            r@.wf(),
    {
        let r = Gui {
            page: Page::Send,
            next_id: 1,
            files: Vec::new(),
            files_size: 0,
            target_name: String::new(),
            target_ip: String::new(),
            port: DEFAULT_PORT,
            streams: 4,
            checksum: true,
            compress: false,
            overwrite: true,
            send_error: String::new(),
            peers: Vec::new(),
            scanning: true,
            last_scan: None,
            tabs: Vec::new(),
            out_dir,
            recv_port: DEFAULT_PORT,
            recv_overwrite: true,
            listening: false,
            recv_open: false,
            recv: RecvProg::idle(now),
            recv_error: String::new(),
            theme: Theme::System,
            applied_dark: true,
            show_settings: false,
            popup: None,
            last_page_key: 0,
            page_born: now,
        };
        assert(r@.files =~= Seq::empty());
        assert(r@.tabs =~= Seq::empty());
        assert(r@.peers =~= Seq::empty());
        assert(r@.target_name =~= Seq::empty());
        assert(r@.target_ip =~= Seq::empty());
        assert(r@.send_error =~= Seq::empty());
        assert(r@.recv_error =~= Seq::empty());
        r
    }

    /// Turns to a page.
    pub fn show(&mut self, page: Page)
        ensures
            final(self)@ == (GuiView { page, ..old(self)@ }),
    {
        self.page = page;
    }
}

// ---------------------------------------------------------------------------
// What is to be sent
// ---------------------------------------------------------------------------

/// Whether the device that is chosen is on the network: one that answered has its
/// address and its port.
pub open spec fn online(peers: Seq<Peer>, ip: Seq<char>, port: u16) -> bool {
    trimmed(ip).len() > 0 && exists|i: int|
        0 <= i < peers.len() && (#[trigger] peers[i]).ip@ == trimmed(ip) && peers[i].port == port
}

pub const NO_FILES: &'static str = "Add at least one file or folder first.";

pub const NO_DEVICE: &'static str = "Select a device below first.";

pub const OFFLINE: &'static str = "That device is offline \u{2014} pick one from Devices nearby.";

/// Why nothing can be sent, if so; `missing` is the first path that is gone.
pub open spec fn refusal(g: GuiView, missing: Option<Seq<char>>) -> Option<Seq<char>> {
    if g.files.len() == 0 {
        Some(NO_FILES@)
    } else if trimmed(g.target_ip).len() == 0 {
        Some(NO_DEVICE@)
    } else if !online(g.peers, g.target_ip, g.port) {
        Some(OFFLINE@)
    } else {
        match missing {
            Some(path) => Some("Not found: "@ + path),
            None => None,
        }
    }
}

/// A tab that was just opened.
pub open spec fn new_tab(
    id: u64,
    name: Seq<char>,
    ip: Seq<char>,
    label: Seq<char>,
    now: u64,
) -> TabView {
    TabView {
        id,
        target_name: name,
        target_ip: ip,
        files: Seq::empty(),
        sent: 0,
        total: 0,
        label,
        speed_bytes: 0,
        speed_nanos: MIN_NANOS,
        started: now,
        last_bytes: 0,
        last_tick: now,
        done: false,
        error: None,
        done_msg: Seq::empty(),
        open: true,
        incoming: false,
        pending: false,
        awaiting: false,
        save_dir: Seq::empty(),
        took: 0,
        active_since: None,
    }
}

fn open_tab(id: u64, name: String, ip: String, label: &str, now: u64) -> (r: Tab)
    ensures
        r@ == new_tab(id, name@, ip@, label@, now),
{
    let r = Tab {
        id,
        target_name: name,
        target_ip: ip,
        files: Vec::new(),
        sent: 0,
        total: 0,
        label: label.to_owned(),
        speed_bytes: 0,
        speed_nanos: MIN_NANOS,
        started: now,
        last_bytes: 0,
        last_tick: now,
        done: false,
        error: None,
        done_msg: String::new(),
        open: true,
        incoming: false,
        pending: false,
        awaiting: false,
        save_dir: String::new(),
        took: 0,
        active_since: None,
    };
    assert(r@.files =~= Seq::empty());
    assert(r@.done_msg =~= Seq::empty());
    assert(r@.save_dir =~= Seq::empty());
    r
}

/// The name under which a tab for the chosen device goes.
pub open spec fn device_name(g: GuiView) -> Seq<char> {
    if trimmed(g.target_name).len() == 0 {
        trimmed(g.target_ip)
    } else {
        trimmed(g.target_name)
    }
}

/// The window after a transfer was started.
pub open spec fn after_start(g: GuiView, now: u64) -> GuiView {
    GuiView {
        send_error: Seq::empty(),
        tabs: g.tabs.push(
            TabView {
                awaiting: true,
                ..new_tab(
                    g.next_id,
                    device_name(g),
                    trimmed(g.target_ip),
                    "Connecting..."@,
                    now,
                )
            },
        ),
        page: Page::Transfer(g.next_id),
        next_id: (g.next_id + 1) as u64,
        ..g
    }
}

/// Whether the options are those that the user chose.
pub open spec fn chosen(o: SendOptions, g: GuiView, machine: Seq<char>) -> bool {
    &&& o.target@ == trimmed(g.target_ip)
    &&& o.port == g.port
    &&& o.streams == g.streams
    &&& o.compress == g.compress
    &&& o.checksum == g.checksum
    &&& o.overwrite == g.overwrite
    &&& o.sender_name@ == machine
}

proof fn lemma_numbered_push(tabs: Seq<TabView>, t: TabView, next_id: u64)
    requires
        numbered(tabs, next_id),
        t.id == next_id,
        next_id < u64::MAX,
    ensures
        numbered(tabs.push(t), (next_id + 1) as u64),
{
    let all = tabs.push(t);
    assert forall|i: int| 0 <= i < all.len() implies (#[trigger] all[i]).id < next_id + 1 by {
        if i < tabs.len() {
            assert(all[i] == tabs[i]);
        }
    }
    assert forall|i: int, j: int| 0 <= i < j < all.len() implies (#[trigger] all[i]).id != (
    #[trigger] all[j]).id by {
        assert(all[i] == tabs[i]);
        if j < tabs.len() {
            assert(all[j] == tabs[j]);
        }
    }
}

impl Gui {
    fn recalc_size(&mut self)
        ensures
            final(self)@ == (GuiView { files_size: picked_size(old(self)@.files), ..old(self)@ }),
    {
        let ghost all = picks(self.files@);
        let mut total: u64 = 0;
        let mut i: usize = 0;
        assert(all.take(0) =~= Seq::empty());
        while i < self.files.len()
            invariant
                i <= self.files@.len(),
                all == picks(self.files@),
                total == picked_size(all.take(i as int)),
            decreases self.files@.len() - i,
        {
            assert(all.take(i + 1).drop_last() =~= all.take(i as int));
            assert(all.take(i + 1).last() == self.files@[i as int]@);
            total = total.wrapping_add(self.files[i].size);
            i = i + 1;
        }
        assert(all.take(i as int) =~= all);
        self.files_size = total;
    }

    fn has(&self, id: usize) -> (r: bool)
        ensures
            r == has_pick(self@.files, id),
    {
        let mut i: usize = 0;
        while i < self.files.len()
            invariant
                i <= self.files@.len(),
                forall|j: int| 0 <= j < i ==> (#[trigger] self@.files[j]).id != id,
            decreases self.files@.len() - i,
        {
            assert(self@.files[i as int] == self.files@[i as int]@);
            if self.files[i].id == id {
                return true;
            }
            i = i + 1;
        }
        false
    }

    /// Adds what the user named to what is to be sent.
    pub fn add_files(&mut self, named: &Vec<Candidate>)
        requires
            old(self)@.wf(),
        ensures
            final(self)@ == (GuiView {
                files: picks_after(old(self)@.files, named@),
                files_size: picked_size(picks_after(old(self)@.files, named@)),
                ..old(self)@
            }),
            final(self)@.wf(),
    {
        let ghost start = self@;
        let mut i: usize = 0;
        assert(named@.take(0) =~= Seq::empty());
        while i < named.len()
            invariant
                i <= named@.len(),
                start == old(self)@,
                self@ == (GuiView {
                    files: picks_after(start.files, named@.take(i as int)),
                    ..start
                }),
            decreases named@.len() - i,
        {
            let c = &named[i];
            let ghost before = self.files@;
            proof {
                assert(named@.take(i + 1).drop_last() =~= named@.take(i as int));
                assert(named@.take(i + 1).last() == *c);
            }
            if c.there && !self.has(c.what.id) {
                let p = Picked {
                    id: c.what.id,
                    name: c.what.name.clone(),
                    size: c.what.size,
                    is_dir: c.what.is_dir,
                };
                self.files.push(p);
                assert(picks(self.files@) =~= picks(before).push(c.what@));
            }
            i = i + 1;
        }
        assert(named@.take(i as int) =~= named@);
        self.recalc_size();
    }

    /// Takes one out of what is to be sent.
    pub fn remove_file(&mut self, i: usize)
        requires
            old(self)@.wf(),
            i < old(self)@.files.len(),
        ensures
            final(self)@ == (GuiView {
                files: old(self)@.files.remove(i as int),
                files_size: picked_size(old(self)@.files.remove(i as int)),
                ..old(self)@
            }),
            final(self)@.wf(),
    {
        let ghost before = self.files@;
        self.files.remove(i);
        assert(picks(self.files@) =~= picks(before).remove(i as int));
        self.recalc_size();
    }

    /// Takes all out of what is to be sent.
    pub fn clear_files(&mut self)
        requires
            old(self)@.wf(),
        ensures
            final(self)@ == (GuiView { files: Seq::empty(), files_size: 0, ..old(self)@ }),
            final(self)@.wf(),
    {
        self.files.clear();
        self.files_size = 0;
        assert(self@.files =~= Seq::empty());
    }

    /// Chooses a device that answered.
    pub fn select_device(&mut self, peer: &Peer)
        ensures
            final(self)@ == (GuiView {
                target_name: peer.name@,
                target_ip: peer.ip@,
                port: peer.port,
                send_error: Seq::empty(),
                ..old(self)@
            }),
    {
        self.target_name = peer.name.clone();
        self.target_ip = peer.ip.clone();
        self.port = peer.port;
        self.send_error = String::new();
        assert(self@.send_error =~= Seq::empty());
    }

    /// Whether the device that is chosen is on the network.
    pub fn target_online(&self) -> (r: bool)
        ensures
            r == online(self@.peers, self@.target_ip, self@.port),
    {
        let ip = trim(self.target_ip.as_str());
        if ip.as_str().is_empty() {
            return false;
        }
        let mut i: usize = 0;
        while i < self.peers.len()
            invariant
                i <= self.peers@.len(),
                ip@ == trimmed(self.target_ip@),
                ip@.len() > 0,
                forall|j: int|
                    0 <= j < i ==> !((#[trigger] self.peers@[j]).ip@ == ip@ && self.peers@[j].port
                        == self.port),
            decreases self.peers@.len() - i,
        {
            if same_text(self.peers[i].ip.as_str(), ip.as_str()) && self.peers[i].port == self.port {
                return true;
            }
            i = i + 1;
        }
        false
    }

    /// Forgets the device that was chosen.
    pub fn clear_target(&mut self)
        ensures
            final(self)@ == (GuiView {
                target_name: Seq::empty(),
                target_ip: Seq::empty(),
                send_error: Seq::empty(),
                ..old(self)@
            }),
    {
        self.target_name = String::new();
        self.target_ip = String::new();
        self.send_error = String::new();
        assert(self@.target_name =~= Seq::empty());
        assert(self@.target_ip =~= Seq::empty());
        assert(self@.send_error =~= Seq::empty());
    }

    /// Whether one more tab can be numbered.
    pub fn can_open(&self) -> (r: bool)
        ensures
            r == (self@.next_id < u64::MAX),
    {
        self.next_id < u64::MAX
    }

    /// Starts to send what was chosen; `missing` is the first path that is gone.
    /// Where nothing can be sent, the reason is shown and nothing else changes.
    pub fn start_send(&mut self, missing: Option<String>, machine: String, now: u64) -> (r: Option<
        SendOptions,
    >)
        requires
            old(self)@.wf(),
            old(self)@.next_id < u64::MAX,
        ensures
            match refusal(old(self)@, opt_text(missing)) {
                Some(why) => r is None && final(self)@ == (GuiView {
                    send_error: why,
                    ..old(self)@
                }),
                None => final(self)@ == after_start(old(self)@, now) && (r matches Some(o)
                    && chosen(o, old(self)@, machine@)),
            },
            final(self)@.wf(),
    {
        if self.files.len() == 0 {
            self.send_error = NO_FILES.to_owned();
            return None;
        }
        let ip = trim(self.target_ip.as_str());
        if ip.as_str().is_empty() {
            self.send_error = NO_DEVICE.to_owned();
            return None;
        }
        if !self.target_online() {
            self.send_error = OFFLINE.to_owned();
            return None;
        }
        if let Some(path) = missing {
            self.send_error = join_texts("Not found: ", path.as_str());
            return None;
        }
        self.send_error = String::new();
        let name = trim(self.target_name.as_str());
        let shown = if name.as_str().is_empty() {
            ip.clone()
        } else {
            name
        };
        let id: u64 = self.next_id;
        let ghost before = self.tabs@;
        let mut t = open_tab(id, shown, ip.clone(), "Connecting...", now);
        t.awaiting = true;
        self.tabs.push(t);
        self.next_id = id + 1;
        self.page = Page::Transfer(id);
        proof {
            lemma_numbered_push(tabs_seen(before), t@, id);
            assert(tabs_seen(self.tabs@) =~= tabs_seen(before).push(t@));
            assert(self@.send_error =~= Seq::empty());
        }
        Some(
            SendOptions {
                target: ip,
                port: self.port,
                streams: self.streams,
                compress: self.compress,
                checksum: self.checksum,
                overwrite: self.overwrite,
                sender_name: machine,
            },
        )
    }

    /// What the chosen device is called.
    pub fn shown_target(&self) -> (r: String)
        ensures
            r@ == (if trimmed(self@.target_name).len() == 0 {
                "Device"@
            } else {
                trimmed(self@.target_name)
            }),
    {
        let name = trim(self.target_name.as_str());
        if name.as_str().is_empty() {
            "Device".to_owned()
        } else {
            name
        }
    }

    /// Whether this is the device that is chosen.
    pub fn is_selected(&self, peer: &Peer) -> (r: bool)
        ensures
            r == (peer.ip@ == trimmed(self@.target_ip) && peer.port == self@.port),
    {
        let ip = trim(self.target_ip.as_str());
        same_text(peer.ip.as_str(), ip.as_str()) && peer.port == self.port
    }
}

/// Lengths added up, counted in 64 bits.
pub open spec fn lengths_sum(lens: Seq<u64>) -> u64
    decreases lens.len(),
{
    if lens.len() == 0 {
        0
    } else {
        counted(lengths_sum(lens.drop_last()), lens.last())
    }
}

/// The size of a folder, by the lengths of the files in it.
pub fn dir_size(lens: &Vec<u64>) -> (r: u64)
    ensures
        r == lengths_sum(lens@),
{
    let mut total: u64 = 0;
    let mut i: usize = 0;
    assert(lens@.take(0) =~= Seq::empty());
    while i < lens.len()
        invariant
            i <= lens@.len(),
            total == lengths_sum(lens@.take(i as int)),
        decreases lens@.len() - i,
    {
        assert(lens@.take(i + 1).drop_last() =~= lens@.take(i as int));
        total = total.wrapping_add(lens[i]);
        i = i + 1;
    }
    assert(lens@.take(i as int) =~= lens@);
    total
}

/// Where files are saved unless the user says otherwise, by the user's own
/// folder.
pub fn downloads_dir(home: Option<String>) -> (r: String)
    ensures
        r@ == match home {
            Some(h) => h@ + "\\Downloads"@,
            None => "."@,
        },
{
    match home {
        Some(h) => join_texts(h.as_str(), "\\Downloads"),
        None => ".".to_owned(),
    }
}

/// The folder that is opened for the user: the one named; where it is gone, the
/// one above it, if that is there.
pub fn folder_to_open(dir: String, there: bool, above: Option<String>) -> (r: String)
    ensures
        r@ == if there || above is None {
            dir@
        } else {
            above->0@
        },
{
    if there {
        return dir;
    }
    match above {
        Some(a) => a,
        None => dir,
    }
}

/// So many dots.
pub open spec fn dots(n: nat) -> Seq<char> {
    Seq::new(n, |i: int| '.')
}

/// A text with up to three dots behind it, one more at each beat.
pub fn waiting_text(base: &str, beats: u64) -> (r: String)
    ensures
        r@ == base@ + dots((beats % 4) as nat),
{
    let n: u64 = beats % 4;
    let mut r = base.to_owned();
    let mut i: u64 = 0;
    assert(base@ + dots(0) =~= base@);
    while i < n
        invariant
            i <= n,
            r@ == base@ + dots(i as nat),
        decreases n - i,
    {
        r.push('.');
        i = i + 1;
        assert(r@ =~= base@ + dots(i as nat));
    }
    r
}

// ---------------------------------------------------------------------------
// Devices and requests
// ---------------------------------------------------------------------------

/// How long a list of devices is taken to be new.
pub const SCAN_NANOS: u64 = 3_000_000_000;

/// The window after a look at what the search for devices found.
pub open spec fn after_scan(g: GuiView, found: Option<Seq<Peer>>, now: u64) -> GuiView {
    let g1 = match found {
        Some(peers) => GuiView { peers, last_scan: Some(now), scanning: false, ..g },
        None => g,
    };
    let stale = match g1.last_scan {
        Some(t) => between(t, now) > SCAN_NANOS,
        None => true,
    };
    GuiView { scanning: g1.scanning || stale, ..g1 }
}

/// The window after a sender asked to be let in.
pub open spec fn after_request(
    g: GuiView,
    name: Seq<char>,
    ip: Seq<char>,
    offer: Seq<OfferFile>,
    total: u64,
    now: u64,
) -> GuiView {
    GuiView {
        tabs: g.tabs.push(
            TabView {
                files: unsent(offered_files(offer)),
                total,
                incoming: true,
                pending: true,
                save_dir: g.out_dir,
                ..new_tab(g.next_id, name, ip, "Waiting for your approval..."@, now)
            },
        ),
        page: Page::Transfer(g.next_id),
        next_id: (g.next_id + 1) as u64,
        ..g
    }
}

fn offer_progs(offer: &Vec<OfferFile>) -> (r: Vec<FileProg>)
    ensures
        progs(r@) == unsent(offered_files(offer@)),
{
    let mut r: Vec<FileProg> = Vec::new();
    let mut i: usize = 0;
    assert(offer@.take(0) =~= Seq::empty());
    assert(progs(r@) =~= unsent(offered_files(offer@.take(0))));
    while i < offer.len()
        invariant
            i <= offer@.len(),
            progs(r@) == unsent(offered_files(offer@.take(i as int))),
        decreases offer@.len() - i,
    {
        let ghost before = r@;
        proof {
            assert(offer@.take(i + 1).drop_last() =~= offer@.take(i as int));
            assert(offer@.take(i + 1).last() == offer@[i as int]);
        }
        if !offer[i].is_dir {
            let f = FileProg { name: offer[i].rel.clone(), size: offer[i].size, sent: 0 };
            r.push(f);
            proof {
                assert(progs(r@) =~= progs(before).push(f@));
                assert(progs(r@) =~= unsent(offered_files(offer@.take(i + 1))));
            }
        }
        i = i + 1;
    }
    assert(offer@.take(i as int) =~= offer@);
    r
}

impl Gui {
    /// Takes what the search for devices found since the last look, if anything.
    pub fn on_scan(&mut self, found: Option<Vec<Peer>>, now: u64)
        ensures
            final(self)@ == after_scan(
                old(self)@,
                match found {
                    Some(p) => Some(p@),
                    None => None,
                },
                now,
            ),
    {
        if let Some(peers) = found {
            self.peers = peers;
            self.last_scan = Some(now);
            self.scanning = false;
        }
        let stale: bool = match self.last_scan {
            Some(t) => now > t && now - t > SCAN_NANOS,
            None => true,
        };
        if stale {
            self.scanning = true;
        }
    }

    /// Opens a tab for a sender that asks to be let in, and turns to it.
    pub fn on_request(
        &mut self,
        name: String,
        ip: String,
        offer: &Vec<OfferFile>,
        total: u64,
        now: u64,
    ) -> (id: u64)
        requires
            old(self)@.wf(),
            old(self)@.next_id < u64::MAX,
        ensures
            final(self)@ == after_request(old(self)@, name@, ip@, offer@, total, now),
            id == old(self)@.next_id,
            final(self)@.wf(),
    {
        let id: u64 = self.next_id;
        let ghost before = self.tabs@;
        let mut t = open_tab(id, name, ip, "Waiting for your approval...", now);
        t.files = offer_progs(offer);
        t.total = total;
        t.incoming = true;
        t.pending = true;
        t.save_dir = self.out_dir.clone();
        self.tabs.push(t);
        self.next_id = id + 1;
        self.page = Page::Transfer(id);
        proof {
            lemma_numbered_push(tabs_seen(before), t@, id);
            assert(tabs_seen(self.tabs@) =~= tabs_seen(before).push(t@));
        }
        id
    }
}

// ---------------------------------------------------------------------------
// Reports
// ---------------------------------------------------------------------------

/// A tab after reports of its transfer, in the order in which they came.
pub open spec fn reported(t: TabView, us: Seq<(UpdateView, u64)>) -> TabView
    decreases us.len(),
{
    if us.len() == 0 {
        t
    } else {
        updated(reported(t, us.drop_last()), us.last().0, us.last().1)
    }
}

/// The first message that reports of a transfer call for.
pub open spec fn reported_popup(t: TabView, us: Seq<(UpdateView, u64)>) -> Option<PopupView>
    decreases us.len(),
{
    if us.len() == 0 {
        None
    } else {
        match reported_popup(t, us.drop_last()) {
            Some(p) => Some(p),
            None => popup_of(reported(t, us.drop_last()), us.last().0),
        }
    }
}

/// A tab after a look at the reports. That of a transfer that was over before is
/// as it was.
pub open spec fn tab_after(t: TabView, us: Seq<(UpdateView, u64)>) -> TabView {
    if t.open {
        reported(t, us)
    } else {
        t
    }
}

/// The first message that a look at the reports of one tab calls for.
pub open spec fn tab_popup(t: TabView, us: Seq<(UpdateView, u64)>) -> Option<PopupView> {
    if t.open {
        reported_popup(t, us)
    } else {
        None
    }
}

/// The tabs after reports, those of each tab together.
pub open spec fn tabs_after(tabs: Seq<TabView>, batches: Seq<Vec<Stamped>>) -> Seq<TabView> {
    Seq::new(tabs.len(), |i: int| tab_after(tabs[i], stamps(batches[i]@)))
}

/// The first message that reports call for, tab by tab.
pub open spec fn first_popup(tabs: Seq<TabView>, batches: Seq<Vec<Stamped>>, n: nat) -> Option<
    PopupView,
>
    decreases n,
{
    if n == 0 {
        None
    } else {
        match first_popup(tabs, batches, (n - 1) as nat) {
            Some(p) => Some(p),
            None => tab_popup(tabs[n - 1], stamps(batches[n - 1]@)),
        }
    }
}

/// Whether a tab is that of a transfer that one of the sides cut off.
pub open spec fn is_cut_off(t: TabView) -> bool {
    t.done && t.error is Some && is_stop(t.error->0)
}

/// The tabs that stay: those of transfers that were not cut off.
pub open spec fn kept(tabs: Seq<TabView>) -> Seq<TabView> {
    tabs.filter(|t: TabView| !is_cut_off(t))
}

/// The page after tabs were closed: where the tab shown is among them, the page
/// from which such transfers are started.
pub open spec fn page_after(page: Page, tabs: Seq<TabView>) -> Page
    decreases tabs.len(),
{
    if tabs.len() == 0 {
        page
    } else {
        let t = tabs[0];
        if page == Page::Transfer(t.id) && is_cut_off(t) {
            if t.incoming {
                Page::Receive
            } else {
                Page::Send
            }
        } else {
            page_after(page, tabs.drop_first())
        }
    }
}

/// The window after a look at the reports of all tabs.
pub open spec fn after_reports(g: GuiView, batches: Seq<Vec<Stamped>>) -> GuiView {
    let tabs = tabs_after(g.tabs, batches);
    GuiView {
        tabs: kept(tabs),
        page: page_after(g.page, tabs),
        popup: match g.popup {
            Some(p) => Some(p),
            None => first_popup(g.tabs, batches, g.tabs.len()),
        },
        ..g
    }
}

fn cut_off(t: &Tab) -> (r: bool)
    ensures
        r == is_cut_off(t@),
{
    if !t.done {
        return false;
    }
    match &t.error {
        Some(e) => says_stop(e.as_str()),
        None => false,
    }
}

/// Takes the reports of one tab, unless its transfer is over, and says which
/// message they call for.
fn apply_all(t: &mut Tab, us: &Vec<Stamped>) -> (r: Option<Popup>)
    ensures
        final(t)@ == tab_after(old(t)@, stamps(us@)),
        opt_popup(r) == tab_popup(old(t)@, stamps(us@)),
{
    let ghost start = t@;
    let ghost all = stamps(us@);
    let mut popup: Option<Popup> = None;
    if !t.open {
        return popup;
    }
    let mut i: usize = 0;
    assert(all.take(0) =~= Seq::empty());
    while i < us.len()
        invariant
            i <= us@.len(),
            all == stamps(us@),
            t@ == reported(start, all.take(i as int)),
            opt_popup(popup) == reported_popup(start, all.take(i as int)),
        decreases us@.len() - i,
    {
        proof {
            assert(all.take(i + 1).drop_last() =~= all.take(i as int));
            assert(all.take(i + 1).last() == (us@[i as int].update@, us@[i as int].at));
        }
        let p = t.apply(&us[i].update, us[i].at);
        if popup.is_none() {
            popup = p;
        }
        i = i + 1;
    }
    assert(all.take(i as int) =~= all);
    popup
}

proof fn lemma_numbered_same_ids(a: Seq<TabView>, b: Seq<TabView>, next_id: u64)
    requires
        numbered(a, next_id),
        a.len() == b.len(),
        forall|i: int| 0 <= i < a.len() ==> (#[trigger] b[i]).id == a[i].id,
    ensures
        numbered(b, next_id),
{
    assert forall|i: int| 0 <= i < b.len() implies (#[trigger] b[i]).id < next_id by {
        assert(a[i].id < next_id);
    }
    assert forall|i: int, j: int| 0 <= i < j < b.len() implies (#[trigger] b[i]).id != (
    #[trigger] b[j]).id by {
        assert(a[i].id != a[j].id);
    }
}

proof fn lemma_reported_id(t: TabView, us: Seq<(UpdateView, u64)>)
    ensures
        reported(t, us).id == t.id,
        reported(t, us).incoming == t.incoming,
    decreases us.len(),
{
    if us.len() > 0 {
        lemma_reported_id(t, us.drop_last());
    }
}

proof fn lemma_tab_after_id(t: TabView, us: Seq<(UpdateView, u64)>)
    ensures
        tab_after(t, us).id == t.id,
        tab_after(t, us).incoming == t.incoming,
{
    lemma_reported_id(t, us);
}

proof fn lemma_numbered_remove(tabs: Seq<TabView>, k: int, next_id: u64)
    requires
        numbered(tabs, next_id),
        0 <= k < tabs.len(),
    ensures
        numbered(tabs.remove(k), next_id),
{
    let r = tabs.remove(k);
    assert forall|i: int| 0 <= i < r.len() implies (#[trigger] r[i]).id < next_id by {
        let a = if i < k {
            i
        } else {
            i + 1
        };
        assert(r[i] == tabs[a]);
    }
    assert forall|i: int, j: int| 0 <= i < j < r.len() implies (#[trigger] r[i]).id != (
    #[trigger] r[j]).id by {
        let a = if i < k {
            i
        } else {
            i + 1
        };
        let b = if j < k {
            j
        } else {
            j + 1
        };
        assert(r[i] == tabs[a] && r[j] == tabs[b]);
    }
}

proof fn lemma_kept_remove(tabs: Seq<TabView>, k: int)
    requires
        0 <= k < tabs.len(),
        is_cut_off(tabs[k]),
    ensures
        kept(tabs.remove(k)) == kept(tabs),
    decreases tabs.len(),
{
    reveal(Seq::filter);
    if k == tabs.len() - 1 {
        assert(tabs.remove(k) =~= tabs.drop_last());
    } else {
        lemma_kept_remove(tabs.drop_last(), k);
        assert(tabs.remove(k).drop_last() =~= tabs.drop_last().remove(k));
        assert(tabs.remove(k).last() == tabs.last());
    }
}

proof fn lemma_kept_all(tabs: Seq<TabView>)
    requires
        forall|i: int| 0 <= i < tabs.len() ==> !is_cut_off(#[trigger] tabs[i]),
    ensures
        kept(tabs) == tabs,
    decreases tabs.len(),
{
    reveal(Seq::filter);
    if tabs.len() > 0 {
        lemma_kept_all(tabs.drop_last());
        assert(tabs.drop_last().push(tabs.last()) =~= tabs);
    }
    assert(kept(tabs) =~= tabs);
}

impl Gui {
    /// Takes the reports that came since the last look, those of each tab
    /// together. Tabs of transfers that were cut off are closed, and the first
    /// failure is shown.
    pub fn poll(&mut self, batches: &Vec<Vec<Stamped>>)
        requires
            old(self)@.wf(),
            batches@.len() == old(self)@.tabs.len(),
        ensures
            final(self)@ == after_reports(old(self)@, batches@),
            final(self)@.wf(),
    {
        let ghost g = self@;
        let ghost after = tabs_after(g.tabs, batches@);
        let n: usize = self.tabs.len();
        let mut popup: Option<Popup> = None;
        let mut i: usize = 0;
        while i < n
            invariant
                i <= n == self.tabs@.len() == g.tabs.len() == batches@.len(),
                after == tabs_after(g.tabs, batches@),
                g == old(self)@,
                self@ == (GuiView { tabs: self@.tabs, ..g }),
                forall|j: int|
                    0 <= j < n ==> #[trigger] self@.tabs[j] == if j < i {
                        after[j]
                    } else {
                        g.tabs[j]
                    },
                opt_popup(popup) == first_popup(g.tabs, batches@, i as nat),
            decreases n - i,
        {
            assert(self@.tabs[i as int] == self.tabs@[i as int]@);
            let ghost before = self.tabs@;
            let p = apply_all(&mut self.tabs[i], &batches[i]);
            if popup.is_none() {
                popup = p;
            }
            assert forall|j: int| 0 <= j < n implies #[trigger] self@.tabs[j] == if j < i + 1 {
                after[j]
            } else {
                g.tabs[j]
            } by {
                assert(self@.tabs[j] == self.tabs@[j]@);
                if j != i {
                    assert(self.tabs@[j] == before[j]);
                    assert(tabs_seen(before)[j] == before[j]@);
                }
            }
            i = i + 1;
        }
        assert(self@.tabs =~= after);
        proof {
            assert forall|j: int| 0 <= j < n implies (#[trigger] after[j]).id == g.tabs[j].id by {
                lemma_tab_after_id(g.tabs[j], stamps(batches@[j]@));
            }
            lemma_numbered_same_ids(g.tabs, after, g.next_id);
        }
        self.close_cut_off();
        if self.popup.is_none() {
            self.popup = popup;
        }
    }

    fn close_cut_off(&mut self)
        requires
            numbered(old(self)@.tabs, old(self)@.next_id),
        ensures
            final(self)@ == (GuiView {
                tabs: kept(old(self)@.tabs),
                page: page_after(old(self)@.page, old(self)@.tabs),
                ..old(self)@
            }),
            numbered(final(self)@.tabs, final(self)@.next_id),
    {
        let ghost g = self@;
        let mut k: usize = 0;
        let mut turned: Option<Page> = None;
        assert(g.tabs.skip(0) =~= g.tabs);
        while k < self.tabs.len() && turned.is_none()
            invariant
                k <= self.tabs@.len(),
                self@ == g,
                match turned {
                    Some(p) => p == page_after(g.page, g.tabs),
                    None => page_after(g.page, g.tabs.skip(k as int)) == page_after(
                        g.page,
                        g.tabs,
                    ),
                },
            decreases self.tabs@.len() - k,
        {
            assert(self@.tabs[k as int] == self.tabs@[k as int]@);
            assert(g.tabs.skip(k as int)[0] == g.tabs[k as int]);
            assert(g.tabs.skip(k as int).drop_first() =~= g.tabs.skip(k + 1));
            if self.page == Page::Transfer(self.tabs[k].id) && cut_off(&self.tabs[k]) {
                turned = Some(
                    if self.tabs[k].incoming {
                        Page::Receive
                    } else {
                        Page::Send
                    },
                );
            }
            k = k + 1;
        }
        let mut i: usize = 0;
        while i < self.tabs.len()
            invariant
                i <= self.tabs@.len(),
                self@ == (GuiView { tabs: self@.tabs, ..g }),
                kept(self@.tabs) == kept(g.tabs),
                numbered(self@.tabs, g.next_id),
                forall|j: int| 0 <= j < i ==> !is_cut_off(#[trigger] self@.tabs[j]),
            decreases self.tabs@.len() - i,
        {
            assert(self@.tabs[i as int] == self.tabs@[i as int]@);
            if cut_off(&self.tabs[i]) {
                let ghost before = self.tabs@;
                proof {
                    lemma_kept_remove(self@.tabs, i as int);
                    lemma_numbered_remove(self@.tabs, i as int, g.next_id);
                }
                self.tabs.remove(i);
                assert(tabs_seen(self.tabs@) =~= tabs_seen(before).remove(i as int));
            } else {
                i = i + 1;
            }
        }
        proof {
            lemma_kept_all(self@.tabs);
        }
        match turned {
            Some(p) => {
                self.page = p;
            },
            None => {
                assert(g.tabs.skip(k as int) =~= Seq::empty());
            },
        }
    }
}

/// How far the transfer that arrives has come after a report.
pub open spec fn recv_moved(r: RecvProgView, u: UpdateView, now: u64) -> RecvProgView {
    let tick = ticks(r.last_tick, now, u.done);
    RecvProgView {
        total: if u.total_bytes > 0 {
            u.total_bytes
        } else {
            r.total
        },
        speed_bytes: if tick {
            between(r.last_bytes, u.sent_bytes)
        } else {
            r.speed_bytes
        },
        speed_nanos: if tick {
            tick_len(r.last_tick, now)
        } else {
            r.speed_nanos
        },
        last_tick: if tick {
            now
        } else {
            r.last_tick
        },
        last_bytes: if tick {
            u.sent_bytes
        } else {
            r.last_bytes
        },
        sent: u.sent_bytes,
        label: if u.label.len() > 0 {
            u.label
        } else {
            r.label
        },
        ..r
    }
}

/// The window after a report of what arrives.
pub open spec fn recv_step(g: GuiView, u: UpdateView, now: u64) -> GuiView {
    let moved = recv_moved(g.recv, u, now);
    if !u.done {
        GuiView { recv: moved, ..g }
    } else {
        match u.error {
            Some(e) => GuiView {
                recv: moved,
                recv_error: e,
                listening: false,
                recv_open: false,
                ..g
            },
            None => GuiView {
                recv: RecvProgView {
                    last_done: u.label,
                    sent: 0,
                    total: 0,
                    last_bytes: 0,
                    ..moved
                },
                ..g
            },
        }
    }
}

impl RecvProg {
    fn apply(&mut self, u: &TransferUpdate, now: u64)
        ensures
            final(self)@ == recv_moved(old(self)@, u@, now),
    {
        if u.total_bytes > 0 {
            self.total = u.total_bytes;
        }
        let gap: u64 = time_between(self.last_tick, now);
        let dt: u64 = if gap > MIN_NANOS {
            gap
        } else {
            MIN_NANOS
        };
        if dt > TICK_NANOS || u.done {
            self.speed_bytes = time_between(self.last_bytes, u.sent_bytes);
            self.speed_nanos = dt;
            self.last_tick = now;
            self.last_bytes = u.sent_bytes;
        }
        self.sent = u.sent_bytes;
        if !u.label.as_str().is_empty() {
            self.label = u.label.clone();
        }
    }

    fn settle(&mut self, label: &str)
        ensures
            final(self)@ == (RecvProgView {
                last_done: label@,
                sent: 0,
                total: 0,
                last_bytes: 0,
                ..old(self)@
            }),
    {
        self.last_done = label.to_owned();
        self.sent = 0;
        self.total = 0;
        self.last_bytes = 0;
    }
}

/// The window after reports of what arrives: up to the first that ends a
/// transfer.
pub open spec fn after_arrivals(g: GuiView, us: Seq<(UpdateView, u64)>) -> GuiView
    decreases us.len(),
{
    if us.len() == 0 {
        g
    } else {
        let g1 = recv_step(g, us[0].0, us[0].1);
        if us[0].0.done {
            g1
        } else {
            after_arrivals(g1, us.drop_first())
        }
    }
}

impl Gui {
    fn on_arrival(&mut self, u: &TransferUpdate, now: u64)
        ensures
            final(self)@ == recv_step(old(self)@, u@, now),
    {
        self.recv.apply(u, now);
        if u.done {
            match &u.error {
                Some(e) => {
                    self.recv_error = e.clone();
                    self.listening = false;
                    self.recv_open = false;
                },
                None => {
                    self.recv.settle(u.label.as_str());
                },
            }
        }
    }

    /// Takes the reports of what arrives that came since the last look, up to the
    /// first that ends a transfer.
    pub fn on_arrivals(&mut self, us: &Vec<Stamped>)
        requires
            old(self)@.wf(),
        ensures
            final(self)@ == after_arrivals(old(self)@, stamps(us@)),
            final(self)@.wf(),
    {
        let ghost g = self@;
        let ghost all = stamps(us@);
        let mut i: usize = 0;
        assert(all.skip(0) =~= all);
        while i < us.len()
            invariant
                i <= us@.len(),
                g == old(self)@,
                g.wf(),
                all == stamps(us@),
                after_arrivals(self@, all.skip(i as int)) == after_arrivals(g, all),
                self@.tabs == g.tabs,
                self@.next_id == g.next_id,
                self@.files == g.files,
                self@.files_size == g.files_size,
            decreases us@.len() - i,
        {
            proof {
                let rest = all.skip(i as int);
                assert(rest[0] == (us@[i as int].update@, us@[i as int].at));
                assert(rest.drop_first() =~= all.skip(i + 1));
            }
            self.on_arrival(&us[i].update, us[i].at);
            if us[i].update.done {
                return;
            }
            i = i + 1;
        }
        assert(all.skip(i as int) =~= Seq::empty());
    }
}

// ---------------------------------------------------------------------------
// Receiving
// ---------------------------------------------------------------------------

pub const NO_FOLDER: &'static str = "Pick a save folder first.";

impl Gui {
    /// The folder that has to be there before others can send, where the user
    /// may start to receive.
    pub fn listen_folder(&mut self) -> (r: Option<String>)
        ensures
            ({
                let g = old(self)@;
                let blank = trimmed(g.out_dir).len() == 0;
                &&& final(self)@ == (GuiView {
                    recv_error: if !g.listening && blank {
                        NO_FOLDER@
                    } else {
                        Seq::empty()
                    },
                    ..g
                })
                &&& r is Some <==> !g.listening && !blank
                &&& r matches Some(dir) ==> dir@ == trimmed(g.out_dir)
            }),
    {
        self.recv_error = String::new();
        assert(self@.recv_error =~= Seq::empty());
        if self.listening {
            return None;
        }
        let dir = trim(self.out_dir.as_str());
        if dir.as_str().is_empty() {
            self.recv_error = NO_FOLDER.to_owned();
            return None;
        }
        Some(dir)
    }

    /// Says that the folder could not be made.
    pub fn folder_failed(&mut self, why: &str)
        ensures
            final(self)@ == (GuiView {
                recv_error: "Cannot create folder: "@ + why@,
                ..old(self)@
            }),
    {
        self.recv_error = join_texts("Cannot create folder: ", why);
    }

    /// Starts to receive, once the folder is there.
    pub fn listen(&mut self, now: u64) -> (r: RecvOptions)
        ensures
            final(self)@ == (GuiView {
                listening: true,
                recv_open: true,
                recv: recv_idle(now),
                ..old(self)@
            }),
            r.bind@ == "0.0.0.0"@,
            r.port == old(self)@.recv_port,
            r.out@ == trimmed(old(self)@.out_dir),
            r.overwrite == old(self)@.recv_overwrite,
    {
        self.recv_open = true;
        self.recv = RecvProg::idle(now);
        self.listening = true;
        RecvOptions {
            bind: "0.0.0.0".to_owned(),
            port: self.recv_port,
            out: trim(self.out_dir.as_str()),
            overwrite: self.recv_overwrite,
        }
    }

    /// Stops to receive.
    pub fn stop_listen(&mut self)
        ensures
            final(self)@ == (GuiView { listening: false, ..old(self)@ }),
    {
        self.listening = false;
    }
}

// ---------------------------------------------------------------------------
// Looks and clicks
// ---------------------------------------------------------------------------

/// How a transfer stands, as its tab shows it.
#[derive(Clone, Copy, Debug, PartialEq, Eq, Structural)]
pub enum TabStatus {
    Failed,
    Done,
    /// One of the sides still has to allow it.
    Waiting,
    Running,
}

/// How a transfer stands.
pub open spec fn status_of(t: TabView) -> TabStatus {
    if t.error is Some {
        TabStatus::Failed
    } else if t.done {
        TabStatus::Done
    } else if (t.incoming && t.pending) || (!t.incoming && t.awaiting) {
        TabStatus::Waiting
    } else {
        TabStatus::Running
    }
}

/// How a transfer stands.
pub fn tab_status(t: &Tab) -> (r: TabStatus)
    ensures
        r == status_of(t@),
{
    if t.error.is_some() {
        TabStatus::Failed
    } else if t.done {
        TabStatus::Done
    } else if (t.incoming && t.pending) || (!t.incoming && t.awaiting) {
        TabStatus::Waiting
    } else {
        TabStatus::Running
    }
}

/// How often the window is drawn while something moves, and while nothing does.
pub const BUSY_MS: u64 = 33;

pub const CALM_MS: u64 = 150;

/// Whether something moves.
pub open spec fn is_busy(g: GuiView, fading: bool) -> bool {
    fading || g.listening || g.scanning || exists|i: int|
        0 <= i < g.tabs.len() && (!(#[trigger] g.tabs[i]).done || g.tabs[i].pending)
}

/// Where the tab with this number stands; `None` where there is none.
pub open spec fn is_place_of(tabs: Seq<TabView>, id: u64, r: Option<usize>) -> bool {
    match r {
        Some(i) => i < tabs.len() && tabs[i as int].id == id,
        None => forall|i: int| 0 <= i < tabs.len() ==> (#[trigger] tabs[i]).id != id,
    }
}

/// The window after its message was closed: the tab that the message belongs to is
/// closed with it.
pub open spec fn popup_closed(g: GuiView) -> GuiView {
    match g.popup {
        Some(p) => match p.tab_id {
            Some(id) => GuiView {
                tabs: g.tabs.filter(|t: TabView| t.id != id),
                page: if g.page == Page::Transfer(id) {
                    Page::Send
                } else {
                    g.page
                },
                popup: None,
                ..g
            },
            None => GuiView { popup: None, ..g },
        },
        None => g,
    }
}

impl Gui {
    /// Follows the theme and the page before the window is drawn; says whether
    /// the colours have to be changed.
    pub fn begin_frame(&mut self, system_dark: Option<bool>, now: u64) -> (r: bool)
        ensures
            ({
                let g = old(self)@;
                let dark = wants_dark(g.theme, system_dark);
                let key = key_of(g.page);
                &&& r == (dark != g.applied_dark)
                &&& final(self)@ == (GuiView {
                    applied_dark: dark,
                    last_page_key: key,
                    page_born: if key != g.last_page_key {
                        now
                    } else {
                        g.page_born
                    },
                    ..g
                })
            }),
    {
        let dark: bool = match self.theme {
            Theme::Dark => true,
            Theme::Light => false,
            Theme::System => match system_dark {
                Some(d) => d,
                None => true,
            },
        };
        let changed: bool = dark != self.applied_dark;
        self.applied_dark = dark;
        let key: u64 = page_key(self.page);
        if key != self.last_page_key {
            self.last_page_key = key;
            self.page_born = now;
        }
        changed
    }

    /// After how many milliseconds the window is drawn again.
    pub fn repaint_after(&self, fading: bool) -> (r: u64)
        ensures
            r == (if is_busy(self@, fading) {
                BUSY_MS
            } else {
                CALM_MS
            }),
    {
        if fading || self.listening || self.scanning {
            return BUSY_MS;
        }
        let mut i: usize = 0;
        while i < self.tabs.len()
            invariant
                i <= self.tabs@.len(),
                forall|j: int|
                    0 <= j < i ==> (#[trigger] self@.tabs[j]).done && !self@.tabs[j].pending,
            decreases self.tabs@.len() - i,
        {
            assert(self@.tabs[i as int] == self.tabs@[i as int]@);
            if !self.tabs[i].done || self.tabs[i].pending {
                return BUSY_MS;
            }
            i = i + 1;
        }
        CALM_MS
    }

    /// Where the tab with this number stands.
    pub fn find_tab(&self, id: u64) -> (r: Option<usize>)
        ensures
            is_place_of(self@.tabs, id, r),
    {
        let mut i: usize = 0;
        while i < self.tabs.len()
            invariant
                i <= self.tabs@.len(),
                forall|j: int| 0 <= j < i ==> (#[trigger] self@.tabs[j]).id != id,
            decreases self.tabs@.len() - i,
        {
            assert(self@.tabs[i as int] == self.tabs@[i as int]@);
            if self.tabs[i].id == id {
                return Some(i);
            }
            i = i + 1;
        }
        None
    }

    /// Where the tab with this number stands; where there is none, the window
    /// turns to the page for sending.
    pub fn shown_tab(&mut self, id: u64) -> (r: Option<usize>)
        ensures
            is_place_of(old(self)@.tabs, id, r),
            r is Some ==> final(self)@ == old(self)@,
            r is None ==> final(self)@ == (GuiView { page: Page::Send, ..old(self)@ }),
    {
        let r = self.find_tab(id);
        if r.is_none() {
            self.page = Page::Send;
        }
        r
    }

    /// Lets a sender in.
    pub fn allow(&mut self, pos: usize, now: u64)
        requires
            old(self)@.wf(),
            pos < old(self)@.tabs.len(),
        ensures
            final(self)@ == (GuiView {
                tabs: old(self)@.tabs.update(
                    pos as int,
                    TabView {
                        pending: false,
                        label: "Starting..."@,
                        started: now,
                        last_tick: now,
                        ..old(self)@.tabs[pos as int]
                    },
                ),
                ..old(self)@
            }),
            final(self)@.wf(),
    {
        let ghost g = self@;
        assert(self@.tabs[pos as int] == self.tabs@[pos as int]@);
        self.tabs[pos].pending = false;
        self.tabs[pos].label = "Starting...".to_owned();
        self.tabs[pos].started = now;
        self.tabs[pos].last_tick = now;
        proof {
            let t = TabView {
                pending: false,
                label: "Starting..."@,
                started: now,
                last_tick: now,
                ..g.tabs[pos as int]
            };
            assert(self@.tabs =~= g.tabs.update(pos as int, t));
            lemma_numbered_same_ids(g.tabs, self@.tabs, g.next_id);
        }
    }

    fn drop_tab(&mut self, pos: usize, page: Page)
        requires
            old(self)@.wf(),
            pos < old(self)@.tabs.len(),
        ensures
            final(self)@ == (GuiView {
                tabs: old(self)@.tabs.remove(pos as int),
                page,
                ..old(self)@
            }),
            final(self)@.wf(),
    {
        let ghost before = self.tabs@;
        proof {
            lemma_numbered_remove(self@.tabs, pos as int, self@.next_id);
        }
        self.tabs.remove(pos);
        self.page = page;
        assert(tabs_seen(self.tabs@) =~= tabs_seen(before).remove(pos as int));
    }

    /// Refuses a sender: its tab is closed at once.
    pub fn deny(&mut self, pos: usize)
        requires
            old(self)@.wf(),
            pos < old(self)@.tabs.len(),
        ensures
            final(self)@ == (GuiView {
                tabs: old(self)@.tabs.remove(pos as int),
                page: Page::Receive,
                ..old(self)@
            }),
            final(self)@.wf(),
    {
        self.drop_tab(pos, Page::Receive);
    }

    /// Cuts a transfer off: its tab is closed.
    pub fn stop(&mut self, pos: usize)
        requires
            old(self)@.wf(),
            pos < old(self)@.tabs.len(),
        ensures
            final(self)@ == (GuiView {
                tabs: old(self)@.tabs.remove(pos as int),
                page: if old(self)@.tabs[pos as int].incoming {
                    Page::Receive
                } else {
                    Page::Send
                },
                ..old(self)@
            }),
            final(self)@.wf(),
    {
        assert(self@.tabs[pos as int] == self.tabs@[pos as int]@);
        let page = if self.tabs[pos].incoming {
            Page::Receive
        } else {
            Page::Send
        };
        self.drop_tab(pos, page);
    }

    /// Closes the tab of a transfer that is over.
    pub fn close(&mut self, pos: usize)
        requires
            old(self)@.wf(),
            pos < old(self)@.tabs.len(),
        ensures
            final(self)@ == (GuiView {
                tabs: old(self)@.tabs.remove(pos as int),
                page: Page::Send,
                ..old(self)@
            }),
            final(self)@.wf(),
    {
        self.drop_tab(pos, Page::Send);
    }

    /// Shows a message that belongs to no tab.
    pub fn show_error(&mut self, title: &str, message: &str, context: &str)
        ensures
            final(self)@ == (GuiView {
                popup: Some(
                    PopupView {
                        title: title@,
                        message: message@,
                        context: context@,
                        tab_id: None,
                    },
                ),
                ..old(self)@
            }),
    {
        self.popup = Some(
            Popup {
                title: title.to_owned(),
                message: message.to_owned(),
                context: context.to_owned(),
                tab_id: None,
            },
        );
    }

    /// Closes the message, and the tab that it belongs to.
    pub fn close_popup(&mut self)
        requires
            old(self)@.wf(),
        ensures
            final(self)@ == popup_closed(old(self)@),
            final(self)@.wf(),
    {
        let tab_id: Option<u64> = match &self.popup {
            Some(p) => p.tab_id,
            None => None,
        };
        self.popup = None;
        if let Some(id) = tab_id {
            match self.find_tab(id) {
                Some(pos) => {
                    proof {
                        lemma_filter_id(self@.tabs, id, pos as int, self@.next_id);
                    }
                    let page = if self.page == Page::Transfer(id) {
                        Page::Send
                    } else {
                        self.page
                    };
                    self.drop_tab(pos, page);
                },
                None => {
                    proof {
                        lemma_filter_no_id(self@.tabs, id);
                    }
                    if self.page == Page::Transfer(id) {
                        self.page = Page::Send;
                    }
                },
            }
        }
    }

    /// Closes the settings, and the message with the tab that it belongs to.
    pub fn escape(&mut self)
        requires
            old(self)@.wf(),
        ensures
            final(self)@ == popup_closed(GuiView { show_settings: false, ..old(self)@ }),
            final(self)@.wf(),
    {
        self.show_settings = false;
        self.close_popup();
    }

    /// Opens the settings, or closes them.
    pub fn toggle_settings(&mut self)
        ensures
            final(self)@ == (GuiView { show_settings: !old(self)@.show_settings, ..old(self)@ }),
    {
        self.show_settings = !self.show_settings;
    }

    /// Chooses the colours, and closes the settings.
    pub fn choose_theme(&mut self, theme: Theme)
        ensures
            final(self)@ == (GuiView { theme, show_settings: false, ..old(self)@ }),
    {
        self.theme = theme;
        self.show_settings = false;
    }
}

proof fn lemma_filter_no_id(tabs: Seq<TabView>, id: u64)
    requires
        forall|i: int| 0 <= i < tabs.len() ==> (#[trigger] tabs[i]).id != id,
    ensures
        tabs.filter(|t: TabView| t.id != id) == tabs,
    decreases tabs.len(),
{
    reveal(Seq::filter);
    if tabs.len() > 0 {
        lemma_filter_no_id(tabs.drop_last(), id);
        assert(tabs.drop_last().push(tabs.last()) =~= tabs);
    }
    assert(tabs.filter(|t: TabView| t.id != id) =~= tabs);
}

proof fn lemma_filter_id(tabs: Seq<TabView>, id: u64, pos: int, next_id: u64)
    requires
        numbered(tabs, next_id),
        0 <= pos < tabs.len(),
        tabs[pos].id == id,
    ensures
        tabs.filter(|t: TabView| t.id != id) == tabs.remove(pos),
    decreases tabs.len(),
{
    reveal(Seq::filter);
    let before = tabs.drop_last();
    if pos == tabs.len() - 1 {
        assert forall|i: int| 0 <= i < before.len() implies (#[trigger] before[i]).id != id by {
            assert(tabs[i].id != tabs[pos].id);
        }
        lemma_filter_no_id(before, id);
        assert(tabs.remove(pos) =~= before);
    } else {
        assert(numbered(before, next_id)) by {
            assert forall|i: int| 0 <= i < before.len() implies (#[trigger] before[i]).id
                < next_id by {
                assert(tabs[i].id < next_id);
            }
            assert forall|i: int, j: int| 0 <= i < j < before.len() implies (
            #[trigger] before[i]).id != (#[trigger] before[j]).id by {
                assert(tabs[i].id != tabs[j].id);
            }
        }
        lemma_filter_id(before, id, pos, next_id);
        assert(tabs[pos].id != tabs[tabs.len() - 1].id);
        assert(tabs.remove(pos) =~= before.remove(pos).push(tabs.last()));
    }
}

// ---------------------------------------------------------------------------
// What is remembered
// ---------------------------------------------------------------------------

/// What is remembered of the window.
pub open spec fn settings_of(g: GuiView) -> SettingsView {
    SettingsView {
        target_name: g.target_name,
        target_ip: g.target_ip,
        port: g.port,
        streams: g.streams,
        checksum: g.checksum,
        compress: g.compress,
        overwrite: g.overwrite,
        out_dir: g.out_dir,
        recv_port: g.recv_port,
        recv_overwrite: g.recv_overwrite,
    }
}

/// The window with what was remembered.
pub open spec fn restored(g: GuiView, s: SettingsView) -> GuiView {
    GuiView {
        target_name: s.target_name,
        target_ip: s.target_ip,
        port: s.port,
        streams: s.streams,
        checksum: s.checksum,
        compress: s.compress,
        overwrite: s.overwrite,
        out_dir: s.out_dir,
        recv_port: s.recv_port,
        recv_overwrite: s.recv_overwrite,
        ..g
    }
}

impl Gui {
    /// What is remembered of the window.
    pub fn settings(&self) -> (r: Settings)
        ensures
            r@ == settings_of(self@),
    {
        Settings {
            target_name: self.target_name.clone(),
            target_ip: self.target_ip.clone(),
            port: self.port,
            streams: self.streams,
            checksum: self.checksum,
            compress: self.compress,
            overwrite: self.overwrite,
            out_dir: self.out_dir.clone(),
            recv_port: self.recv_port,
            recv_overwrite: self.recv_overwrite,
        }
    }

    /// Takes up what was remembered.
    pub fn restore(&mut self, s: Settings)
        ensures
            final(self)@ == restored(old(self)@, s@),
    {
        self.target_name = s.target_name;
        self.target_ip = s.target_ip;
        self.port = s.port;
        self.streams = s.streams;
        self.checksum = s.checksum;
        self.compress = s.compress;
        self.overwrite = s.overwrite;
        self.out_dir = s.out_dir;
        self.recv_port = s.recv_port;
        self.recv_overwrite = s.recv_overwrite;
    }
}

/// Target, folder and options are the same after the window was closed and opened
/// again: what is written of one window and read by the next is restored whole.
pub proof fn law_settings_are_remembered(g: GuiView, fresh: GuiView)
    ensures
        settings_in(settings_words(settings_of(g))) is Some,
        settings_of(restored(fresh, settings_in(settings_words(settings_of(g)))->0)) == settings_of(
            g,
        ),
{
    law_settings_read_back(settings_of(g));
}

// ---------------------------------------------------------------------------
// What holds of the window
// ---------------------------------------------------------------------------

/// After a look at the reports no tab is left of a transfer that was cut off, and
/// the window does not show one.
pub proof fn law_cut_off_tabs_are_closed(g: GuiView, batches: Seq<Vec<Stamped>>)
    ensures
        forall|i: int|
            0 <= i < after_reports(g, batches).tabs.len() ==> !is_cut_off(
                #[trigger] after_reports(g, batches).tabs[i],
            ),
        forall|i: int|
            0 <= i < g.tabs.len() && is_cut_off(#[trigger] tabs_after(g.tabs, batches)[i])
                ==> after_reports(g, batches).page != Page::Transfer(g.tabs[i].id),
{
    let tabs = tabs_after(g.tabs, batches);
    let stays = |t: TabView| !is_cut_off(t);
    assert forall|i: int| 0 <= i < kept(tabs).len() implies !is_cut_off(
        #[trigger] kept(tabs)[i],
    ) by {
        tabs.lemma_filter_pred(stays, i);
        assert(stays(kept(tabs)[i]));
    }
    assert forall|i: int| 0 <= i < g.tabs.len() && is_cut_off(#[trigger] tabs[i]) implies page_after(
        g.page,
        tabs,
    ) != Page::Transfer(g.tabs[i].id) by {
        lemma_tab_after_id(g.tabs[i], stamps(batches[i]@));
        lemma_page_after(g.page, tabs, i);
    }
}

proof fn lemma_page_after(page: Page, tabs: Seq<TabView>, i: int)
    requires
        0 <= i < tabs.len(),
        is_cut_off(tabs[i]),
    ensures
        page_after(page, tabs) != Page::Transfer(tabs[i].id),
    decreases tabs.len(),
{
    let t = tabs[0];
    if !(page == Page::Transfer(t.id) && is_cut_off(t)) && i > 0 {
        lemma_page_after(page, tabs.drop_first(), i - 1);
        assert(tabs.drop_first()[i - 1] == tabs[i]);
    } else if i == 0 && page != Page::Transfer(t.id) {
        lemma_page_after_turns(page, tabs);
    }
}

proof fn lemma_page_after_turns(page: Page, tabs: Seq<TabView>)
    ensures
        page_after(page, tabs) == page || page_after(page, tabs) == Page::Send || page_after(
            page,
            tabs,
        ) == Page::Receive,
    decreases tabs.len(),
{
    if tabs.len() > 0 {
        lemma_page_after_turns(page, tabs.drop_first());
    }
}

/// A transfer that is over stays as it ended: no later report changes its tab, and
/// none calls for a message. It is over from the look on in which a report ended
/// it.
pub proof fn law_what_is_over_stays(
    t: TabView,
    us: Seq<(UpdateView, u64)>,
    later: Seq<(UpdateView, u64)>,
)
    ensures
        !t.open ==> tab_after(t, later) == t && tab_popup(t, later) is None,
        (exists|i: int| 0 <= i < us.len() && (#[trigger] us[i]).0.done) ==> {
            let after = tab_after(t, us);
            &&& !after.open
            &&& tab_after(after, later) == after
            &&& tab_popup(after, later) is None
        },
{
    if exists|i: int| 0 <= i < us.len() && (#[trigger] us[i]).0.done {
        let i = choose|i: int| 0 <= i < us.len() && (#[trigger] us[i]).0.done;
        lemma_over_once_done(t, us, i);
    }
}

proof fn lemma_over_once_done(t: TabView, us: Seq<(UpdateView, u64)>, i: int)
    requires
        0 <= i < us.len(),
        us[i].0.done,
    ensures
        !reported(t, us).open,
    decreases us.len(),
{
    if i < us.len() - 1 {
        lemma_over_once_done(t, us.drop_last(), i);
        assert(us.drop_last()[i] == us[i]);
    }
}

/// A message that is shown is not replaced by a later one.
pub proof fn law_first_message_stays(g: GuiView, batches: Seq<Vec<Stamped>>)
    requires
        g.popup is Some,
    ensures
        after_reports(g, batches).popup == g.popup,
{
}

/// The list of what is to be sent names no path twice, where it did not before.
pub proof fn law_no_path_is_listed_twice(files: Seq<PickedView>, named: Seq<Candidate>)
    requires
        forall|i: int, j: int|
            0 <= i < j < files.len() ==> (#[trigger] files[i]).id != (#[trigger] files[j]).id,
    ensures
        forall|i: int, j: int|
            0 <= i < j < picks_after(files, named).len() ==> (#[trigger] picks_after(
                files,
                named,
            )[i]).id != (#[trigger] picks_after(files, named)[j]).id,
    decreases named.len(),
{
    if named.len() > 0 {
        law_no_path_is_listed_twice(files, named.drop_last());
        let before = picks_after(files, named.drop_last());
        let after = picks_after(files, named);
        assert forall|i: int, j: int| 0 <= i < j < after.len() implies (#[trigger] after[i]).id != (
        #[trigger] after[j]).id by {
            if j < before.len() {
                assert(after[i] == before[i] && after[j] == before[j]);
            } else {
                assert(after[i] == before[i]);
                assert(!has_pick(before, named.last().what.id));
            }
        }
    }
}

/// A transfer is started exactly where something was picked, a device was chosen
/// that is on the network, and nothing picked is gone.
pub proof fn law_sending_needs_files_and_a_device(g: GuiView, missing: Option<Seq<char>>)
    ensures
        refusal(g, missing) is None <==> g.files.len() > 0 && online(
            g.peers,
            g.target_ip,
            g.port,
        ) && missing is None,
{
}

// ---------------------------------------------------------------------------
// What holds of picking
// ---------------------------------------------------------------------------

/// Naming one path lists it, be it a file or a folder, just where it is there and
/// is not listed yet; it stands last then, as it was named.
pub proof fn law_one_named_path_is_listed(files: Seq<PickedView>, c: Candidate)
    ensures
        ({
            let after = picks_after(files, seq![c]);
            let listed = exists|i: int| 0 <= i < files.len() && (#[trigger] files[i]).id == c.what.id;
            &&& c.there && !listed ==> {
                &&& after.len() == files.len() + 1
                &&& after.drop_last() == files
                &&& after.last().id == c.what.id
                &&& after.last().name == c.what.name@
                &&& after.last().size == c.what.size
                &&& after.last().is_dir == c.what.is_dir
            }
            &&& !c.there || listed ==> after == files
        }),
{
    let one = seq![c];
    assert(one.drop_last() =~= Seq::<Candidate>::empty());
    assert(picks_after(files, one.drop_last()) == files);
    assert(one.last() == c);
    if c.there && !has_pick(files, c.what.id) {
        assert(files.push(c.what@).drop_last() =~= files);
    }
}

/// Paths that are named one after the other, or at once, are listed alike.
pub proof fn law_naming_goes_on(files: Seq<PickedView>, a: Seq<Candidate>, b: Seq<Candidate>)
    ensures
        picks_after(files, a + b) == picks_after(picks_after(files, a), b),
    decreases b.len(),
{
    if b.len() == 0 {
        assert(a + b =~= a);
    } else {
        assert((a + b).drop_last() =~= a + b.drop_last());
        assert((a + b).last() == b.last());
        law_naming_goes_on(files, a, b.drop_last());
    }
}

/// After paths were named, all that was listed before still is, at its place;
/// every named path that is there is listed, file or folder; and nothing else is.
pub proof fn law_named_paths_are_listed(files: Seq<PickedView>, named: Seq<Candidate>)
    ensures
        ({
            let after = picks_after(files, named);
            &&& files.len() <= after.len()
            &&& forall|i: int| 0 <= i < files.len() ==> #[trigger] after[i] == files[i]
            &&& forall|k: int|
                0 <= k < named.len() && (#[trigger] named[k]).there ==> exists|i: int|
                    0 <= i < after.len() && (#[trigger] after[i]).id == named[k].what.id
            &&& forall|i: int|
                files.len() <= i < after.len() ==> exists|k: int|
                    0 <= k < named.len() && (#[trigger] named[k]).there && named[k].what@
                        == #[trigger] after[i]
        }),
    decreases named.len(),
{
    if named.len() > 0 {
        let before = picks_after(files, named.drop_last());
        let after = picks_after(files, named);
        let last = named.len() - 1;
        let c = named[last];
        law_named_paths_are_listed(files, named.drop_last());
        assert forall|k: int| 0 <= k < named.len() && (#[trigger] named[k]).there implies exists|
            i: int,
        | 0 <= i < after.len() && (#[trigger] after[i]).id == named[k].what.id by {
            if k < last {
                assert(named.drop_last()[k] == named[k]);
                let i = choose|i: int|
                    0 <= i < before.len() && (#[trigger] before[i]).id == named[k].what.id;
                assert(after[i] == before[i]);
            } else if has_pick(before, c.what.id) {
                let i = choose|i: int|
                    0 <= i < before.len() && (#[trigger] before[i]).id == c.what.id;
                assert(after[i] == before[i]);
            } else {
                assert(after[before.len() as int].id == c.what.id);
            }
        }
        assert forall|i: int| files.len() <= i < after.len() implies exists|k: int|
            0 <= k < named.len() && (#[trigger] named[k]).there && named[k].what@
                == #[trigger] after[i] by {
            if i < before.len() {
                assert(after[i] == before[i]);
                let k = choose|k: int|
                    0 <= k < named.drop_last().len() && (#[trigger] named.drop_last()[k]).there
                        && named.drop_last()[k].what@ == before[i];
                assert(named[k] == named.drop_last()[k]);
            } else {
                assert(named[last].what@ == after[i]);
            }
        }
    }
}

/// The size of what is listed is the sum of the sizes, counted in 64 bits: nothing
/// has none, each entry adds its own, and taking one out takes its own off.
pub proof fn law_size_is_the_sum(files: Seq<PickedView>, x: PickedView, i: int)
    ensures
        picked_size(Seq::empty()) == 0,
        picked_size(files.push(x)) == (picked_size(files) + x.size) % 0x1_0000_0000_0000_0000,
        0 <= i < files.len() ==> picked_size(files) == (picked_size(files.remove(i))
            + files[i].size) % 0x1_0000_0000_0000_0000,
{
    assert(files.push(x).drop_last() =~= files);
    if 0 <= i < files.len() {
        lemma_size_without(files, i);
    }
}

proof fn lemma_size_without(files: Seq<PickedView>, i: int)
    requires
        0 <= i < files.len(),
    ensures
        picked_size(files) == (picked_size(files.remove(i)) + files[i].size)
            % 0x1_0000_0000_0000_0000,
    decreases files.len(),
{
    if i == files.len() - 1 {
        assert(files.remove(i) =~= files.drop_last());
    } else {
        let before = files.drop_last();
        lemma_size_without(before, i);
        assert(files.remove(i).drop_last() =~= before.remove(i));
        assert(files.remove(i).last() == files.last());
    }
}

/// The size of a folder is the sum of the lengths in it, counted in 64 bits.
pub proof fn law_folder_size_is_the_sum(lens: Seq<u64>, n: u64)
    ensures
        lengths_sum(Seq::empty()) == 0,
        lengths_sum(lens.push(n)) == (lengths_sum(lens) + n) % 0x1_0000_0000_0000_0000,
{
    assert(lens.push(n).drop_last() =~= lens);
}

// ---------------------------------------------------------------------------
// What holds of starting
// ---------------------------------------------------------------------------

/// A device is on the network just where one of those found has its address and
/// port; a device that was found and is then selected is on it.
pub proof fn law_found_devices_are_online(peers: Seq<Peer>, ip: Seq<char>, port: u16, k: int)
    ensures
        online(peers, ip, port) <==> exists|i: int|
            0 <= i < peers.len() && (#[trigger] peers[i]).ip@ == trimmed(ip) && peers[i].port
                == port && trimmed(ip).len() > 0,
        0 <= k < peers.len() && trimmed(peers[k].ip@) == peers[k].ip@ && peers[k].ip@.len() > 0
            ==> online(peers, peers[k].ip@, peers[k].port),
        peers.len() == 0 ==> !online(peers, ip, port),
{
}

/// What is shown where nothing can be started says what is missing, and the first
/// thing first.
pub proof fn law_refusal_says_what_is_missing(g: GuiView, missing: Option<Seq<char>>)
    ensures
        g.files.len() == 0 ==> refusal(g, missing) == Some(
            "Add at least one file or folder first."@,
        ),
        g.files.len() > 0 && trimmed(g.target_ip).len() == 0 ==> refusal(g, missing) == Some(
            "Select a device below first."@,
        ),
        g.files.len() > 0 && trimmed(g.target_ip).len() > 0 && (forall|i: int|
            0 <= i < g.peers.len() ==> (#[trigger] g.peers[i]).ip@ != trimmed(g.target_ip)
                || g.peers[i].port != g.port) ==> refusal(g, missing) == Some(
            "That device is offline \u{2014} pick one from Devices nearby."@,
        ),
        g.files.len() > 0 && online(g.peers, g.target_ip, g.port) && missing is Some ==> refusal(
            g,
            missing,
        ) == Some("Not found: "@ + missing->0),
{
}

/// A transfer that is started has a tab of its own behind all others, under a new
/// number, which is shown; it waits for the device that was chosen. The list of what
/// is sent stays.
pub proof fn law_started_transfer_has_a_tab(g: GuiView, now: u64)
    requires
        g.next_id < u64::MAX,
    ensures
        ({
            let after = after_start(g, now);
            let t = after.tabs[g.tabs.len() as int];
            &&& after.tabs.len() == g.tabs.len() + 1
            &&& forall|i: int| 0 <= i < g.tabs.len() ==> #[trigger] after.tabs[i] == g.tabs[i]
            &&& t.id == g.next_id && after.next_id == g.next_id + 1
            &&& after.page == Page::Transfer(g.next_id)
            &&& t.target_ip == trimmed(g.target_ip)
            &&& trimmed(g.target_name).len() > 0 ==> t.target_name == trimmed(g.target_name)
            &&& trimmed(g.target_name).len() == 0 ==> t.target_name == trimmed(g.target_ip)
            &&& t.label == "Connecting..."@
            &&& t.awaiting && t.open && !t.done && !t.incoming && !t.pending
            &&& t.error is None && t.sent == 0 && t.total == 0 && t.took == 0
            &&& t.files.len() == 0 && t.active_since is None
            &&& t.started == now && t.last_tick == now && t.last_bytes == 0 && t.speed_bytes == 0
            &&& after.send_error.len() == 0
            &&& after.files == g.files && after.files_size == g.files_size
            &&& after.popup == g.popup && after.peers == g.peers
            &&& settings_of(after) == settings_of(g)
        }),
{
}

/// A transfer is started with what was chosen in the window.
pub proof fn law_transfer_takes_what_was_chosen(o: SendOptions, g: GuiView, machine: Seq<char>)
    requires
        chosen(o, g, machine),
    ensures
        o.target@ == trimmed(g.target_ip),
        o.port == g.port && o.streams == g.streams,
        o.compress == g.compress && o.checksum == g.checksum && o.overwrite == g.overwrite,
        o.sender_name@ == machine,
{
}

/// A new window sends, asks for devices, and has the usual options: the usual
/// port, four streams, checksums, no compression, and existing files replaced.
pub proof fn law_window_starts_as_usual(out_dir: Seq<char>, now: u64)
    ensures
        ({
            let g = gui_start(out_dir, now);
            &&& g.page == Page::Send && g.next_id == 1
            &&& g.files.len() == 0 && g.tabs.len() == 0 && g.peers.len() == 0
            &&& g.files_size == 0
            &&& g.port == 53317 && g.recv_port == 53317 && g.streams == 4
            &&& g.checksum && !g.compress && g.overwrite && g.recv_overwrite
            &&& g.out_dir == out_dir
            &&& g.scanning && g.last_scan is None
            &&& !g.listening && !g.recv_open && !g.show_settings
            &&& g.popup is None && g.theme == Theme::System
            &&& g.target_name.len() == 0 && g.target_ip.len() == 0
            &&& g.send_error.len() == 0 && g.recv_error.len() == 0
            &&& g.recv.sent == 0 && g.recv.total == 0 && g.recv.last_tick == now
        }),
{
}

// ---------------------------------------------------------------------------
// What holds of searching and of requests
// ---------------------------------------------------------------------------

/// What a search found is what is listed, and the search is over until three
/// seconds have gone by; where nothing was found anew the list stays, and a search
/// is shown that began long ago or never ended.
pub proof fn law_search_is_shown(g: GuiView, found: Option<Seq<Peer>>, now: u64)
    ensures
        ({
            let after = after_scan(g, found, now);
            &&& found is Some ==> after.peers == found->0 && after.last_scan == Some(now)
                && !after.scanning
            &&& found is None ==> {
                &&& after.peers == g.peers && after.last_scan == g.last_scan
                &&& after.scanning <==> g.scanning || g.last_scan is None || now > g.last_scan->0
                    + 3_000_000_000
            }
            &&& after.tabs == g.tabs && after.files == g.files && after.page == g.page
            &&& settings_of(after) == settings_of(g) && after.popup == g.popup
        }),
{
}

/// The files of an offer are those of its entries that are no folders, in their
/// order.
pub proof fn law_offer_lists_its_files(offer: Seq<OfferFile>, x: OfferFile)
    ensures
        offered_files(Seq::empty()).len() == 0,
        x.is_dir ==> offered_files(offer.push(x)) == offered_files(offer),
        !x.is_dir ==> offered_files(offer.push(x)) == offered_files(offer).push((x.rel@, x.size)),
{
    assert(offer.push(x).drop_last() =~= offer);
}

/// A sender that asks to be let in has a tab of its own behind all others, under a
/// new number, which is shown and waits for an answer; it lists the files offered,
/// none of them begun.
pub proof fn law_request_has_a_tab(
    g: GuiView,
    name: Seq<char>,
    ip: Seq<char>,
    offer: Seq<OfferFile>,
    total: u64,
    now: u64,
    i: int,
)
    requires
        g.next_id < u64::MAX,
    ensures
        ({
            let after = after_request(g, name, ip, offer, total, now);
            let t = after.tabs[g.tabs.len() as int];
            let files = offered_files(offer);
            &&& after.tabs.len() == g.tabs.len() + 1
            &&& forall|i: int| 0 <= i < g.tabs.len() ==> #[trigger] after.tabs[i] == g.tabs[i]
            &&& t.id == g.next_id && after.next_id == g.next_id + 1
            &&& after.page == Page::Transfer(g.next_id)
            &&& t.incoming && t.pending && !t.awaiting && t.open && !t.done && t.error is None
            &&& t.target_name == name && t.target_ip == ip && t.total == total
            &&& t.save_dir == g.out_dir
            &&& t.label == "Waiting for your approval..."@
            &&& t.sent == 0 && t.took == 0 && t.started == now
            &&& t.files.len() == files.len()
            &&& 0 <= i < files.len() ==> t.files[i].name == files[i].0 && t.files[i].size
                == files[i].1 && t.files[i].sent == 0
            &&& settings_of(after) == settings_of(g) && after.popup == g.popup
            &&& after.files == g.files
        }),
{
}

// ---------------------------------------------------------------------------
// What holds of reports
// ---------------------------------------------------------------------------

/// Reports are taken one after the other; a report changes no tab but its own.
pub proof fn law_reports_are_taken_in_turn(
    t: TabView,
    a: Seq<(UpdateView, u64)>,
    u: UpdateView,
    now: u64,
)
    ensures
        reported(t, Seq::empty()) == t,
        reported(t, a.push((u, now))) == updated(reported(t, a), u, now),
{
    assert(a.push((u, now)).drop_last() =~= a);
}

/// Each tab takes its own reports, and stays where it was as long as no transfer
/// was cut off; then the page stays too, and so do the numbers.
pub proof fn law_tabs_take_their_own_reports(g: GuiView, batches: Seq<Vec<Stamped>>, i: int)
    requires
        batches.len() == g.tabs.len(),
        forall|j: int|
            0 <= j < g.tabs.len() ==> !is_cut_off(
                #[trigger] tab_after(g.tabs[j], stamps(batches[j]@)),
            ),
        0 <= i < g.tabs.len(),
    ensures
        ({
            let after = after_reports(g, batches);
            &&& after.tabs.len() == g.tabs.len()
            &&& after.tabs[i] == if g.tabs[i].open {
                reported(g.tabs[i], stamps(batches[i]@))
            } else {
                g.tabs[i]
            }
            &&& after.page == g.page && after.next_id == g.next_id
            &&& after.files == g.files && settings_of(after) == settings_of(g)
        }),
{
    let tabs = tabs_after(g.tabs, batches);
    assert forall|j: int| 0 <= j < tabs.len() implies !is_cut_off(#[trigger] tabs[j]) by {
        assert(tabs[j] == tab_after(g.tabs[j], stamps(batches[j]@)));
    }
    lemma_kept_all(tabs);
    lemma_page_stays(g.page, tabs);
}

proof fn lemma_page_stays(page: Page, tabs: Seq<TabView>)
    requires
        forall|j: int|
            0 <= j < tabs.len() && page == Page::Transfer((#[trigger] tabs[j]).id) ==> !is_cut_off(
                tabs[j],
            ),
    ensures
        page_after(page, tabs) == page,
    decreases tabs.len(),
{
    if tabs.len() > 0 {
        let rest = tabs.drop_first();
        assert(page == Page::Transfer(tabs[0].id) ==> !is_cut_off(tabs[0]));
        assert forall|j: int|
            0 <= j < rest.len() && page == Page::Transfer((#[trigger] rest[j]).id) implies !is_cut_off(
            rest[j],
        ) by {
            assert(rest[j] == tabs[j + 1]);
        }
        lemma_page_stays(page, rest);
    }
}

/// A transfer counts as cut off where it is over with one of the two errors that
/// say so. Where the tab that is shown is that of such a transfer, the page becomes
/// the one that such transfers come from; any other page stays.
pub proof fn law_page_turns_from_a_cut_off_tab(
    page: Page,
    tabs: Seq<TabView>,
    next_id: u64,
    i: int,
)
    requires
        numbered(tabs, next_id),
        0 <= i < tabs.len(),
    ensures
        is_cut_off(tabs[i]) <==> tabs[i].done && (tabs[i].error == Some("Stopped by sender"@)
            || tabs[i].error == Some("Stopped by receiver"@)),
        page == Page::Transfer(tabs[i].id) && is_cut_off(tabs[i]) ==> page_after(page, tabs)
            == if tabs[i].incoming {
            Page::Receive
        } else {
            Page::Send
        },
        page == Page::Transfer(tabs[i].id) && !is_cut_off(tabs[i]) ==> page_after(page, tabs)
            == page,
        page == Page::Send || page == Page::Receive ==> page_after(page, tabs) == page,
{
    if page == Page::Transfer(tabs[i].id) {
        if is_cut_off(tabs[i]) {
            lemma_page_turns(page, tabs, next_id, i);
        } else {
            assert forall|j: int|
                0 <= j < tabs.len() && page == Page::Transfer(
                    (#[trigger] tabs[j]).id,
                ) implies !is_cut_off(tabs[j]) by {
                if j < i {
                    assert(tabs[j].id != tabs[i].id);
                } else if i < j {
                    assert(tabs[i].id != tabs[j].id);
                }
            }
            lemma_page_stays(page, tabs);
        }
    } else if page == Page::Send || page == Page::Receive {
        lemma_page_stays(page, tabs);
    }
}

proof fn lemma_page_turns(page: Page, tabs: Seq<TabView>, next_id: u64, i: int)
    requires
        numbered(tabs, next_id),
        0 <= i < tabs.len(),
        page == Page::Transfer(tabs[i].id),
        is_cut_off(tabs[i]),
    ensures
        page_after(page, tabs) == if tabs[i].incoming {
            Page::Receive
        } else {
            Page::Send
        },
    decreases tabs.len(),
{
    if i > 0 {
        assert(tabs[0].id != tabs[i].id);
        let rest = tabs.drop_first();
        assert(rest =~= tabs.remove(0));
        lemma_numbered_remove(tabs, 0, next_id);
        assert(rest[i - 1] == tabs[i]);
        lemma_page_turns(page, rest, next_id, i - 1);
    }
}

/// Where no message is shown, the first tab whose reports call for one has its
/// message shown.
pub proof fn law_first_failure_is_shown(g: GuiView, batches: Seq<Vec<Stamped>>, i: int)
    requires
        g.popup is None,
        0 <= i < g.tabs.len(),
        forall|j: int|
            0 <= j < i ==> (#[trigger] tab_popup(g.tabs[j], stamps(batches[j]@))) is None,
    ensures
        tab_popup(g.tabs[i], stamps(batches[i]@)) is Some ==> after_reports(g, batches).popup
            == tab_popup(g.tabs[i], stamps(batches[i]@)),
        i == g.tabs.len() - 1 && tab_popup(g.tabs[i], stamps(batches[i]@)) is None
            ==> after_reports(g, batches).popup is None,
{
    lemma_no_popup_before(g.tabs, batches, i as nat);
    assert(first_popup(g.tabs, batches, (i + 1) as nat) == tab_popup(
        g.tabs[i],
        stamps(batches[i]@),
    ));
    if tab_popup(g.tabs[i], stamps(batches[i]@)) is Some {
        lemma_popup_stays_first(g.tabs, batches, (i + 1) as nat, g.tabs.len());
    }
}

proof fn lemma_no_popup_before(tabs: Seq<TabView>, batches: Seq<Vec<Stamped>>, n: nat)
    requires
        forall|j: int|
            0 <= j < n ==> (#[trigger] tab_popup(tabs[j], stamps(batches[j]@))) is None,
    ensures
        first_popup(tabs, batches, n) is None,
    decreases n,
{
    if n > 0 {
        lemma_no_popup_before(tabs, batches, (n - 1) as nat);
    }
}

proof fn lemma_popup_stays_first(tabs: Seq<TabView>, batches: Seq<Vec<Stamped>>, n: nat, m: nat)
    requires
        n <= m,
        first_popup(tabs, batches, n) is Some,
    ensures
        first_popup(tabs, batches, m) == first_popup(tabs, batches, n),
    decreases m - n,
{
    if n < m {
        lemma_popup_stays_first(tabs, batches, n, (m - 1) as nat);
    }
}

/// The first failure among the reports of one transfer is the one whose message is
/// shown.
pub proof fn law_first_error_of_a_transfer_is_shown(
    t: TabView,
    a: Seq<(UpdateView, u64)>,
    u: UpdateView,
    now: u64,
)
    ensures
        reported_popup(t, Seq::empty()) is None,
        reported_popup(t, a) is Some ==> reported_popup(t, a.push((u, now))) == reported_popup(
            t,
            a,
        ),
        reported_popup(t, a) is None ==> reported_popup(t, a.push((u, now))) == popup_of(
            reported(t, a),
            u,
        ),
{
    assert(a.push((u, now)).drop_last() =~= a);
}

/// A report of what arrives is shown as it is: the bytes, the total and the label
/// where it gives them. A speed is what came since the last one was taken over the
/// time since then, and is taken anew after 50 ms.
pub proof fn law_arrivals_are_shown(g: GuiView, u: UpdateView, now: u64)
    requires
        !u.done,
    ensures
        ({
            let after = recv_step(g, u, now).recv;
            &&& after.sent == u.sent_bytes
            &&& after.total == if u.total_bytes == 0 {
                g.recv.total
            } else {
                u.total_bytes
            }
            &&& after.label == if u.label.len() == 0 {
                g.recv.label
            } else {
                u.label
            }
            &&& after.last_done == g.recv.last_done
            &&& now > g.recv.last_tick + 50_000_000 && g.recv.last_bytes <= u.sent_bytes ==> {
                &&& after.speed_bytes == u.sent_bytes - g.recv.last_bytes
                &&& after.speed_nanos == now - g.recv.last_tick
                &&& after.last_tick == now && after.last_bytes == u.sent_bytes
            }
            &&& now <= g.recv.last_tick + 50_000_000 ==> {
                &&& after.speed_bytes == g.recv.speed_bytes
                &&& after.speed_nanos == g.recv.speed_nanos
                &&& after.last_tick == g.recv.last_tick && after.last_bytes == g.recv.last_bytes
            }
            &&& recv_step(g, u, now).listening == g.listening
            &&& recv_step(g, u, now).recv_open == g.recv_open
            &&& recv_step(g, u, now).recv_error == g.recv_error
            &&& recv_step(g, u, now).tabs == g.tabs && recv_step(g, u, now).page == g.page
        }),
{
}

/// What arrived well is named, and the bar starts anew while the window listens on;
/// an error ends the listening and is shown.
pub proof fn law_arrivals_end(g: GuiView, u: UpdateView, now: u64)
    requires
        u.done,
    ensures
        ({
            let after = recv_step(g, u, now);
            &&& u.error is None ==> {
                &&& after.recv.last_done == u.label
                &&& after.recv.sent == 0 && after.recv.total == 0 && after.recv.last_bytes == 0
                &&& after.listening == g.listening && after.recv_open == g.recv_open
                &&& after.recv_error == g.recv_error
            }
            &&& u.error is Some ==> {
                &&& after.recv_error == u.error->0
                &&& !after.listening && !after.recv_open
                &&& after.recv.sent == u.sent_bytes && after.recv.last_done == g.recv.last_done
            }
            &&& after.tabs == g.tabs && after.page == g.page && after.popup == g.popup
        }),
{
}

/// Reports of what arrives are taken one after the other, up to the first that ends
/// a transfer.
pub proof fn law_arrivals_are_taken_in_turn(
    g: GuiView,
    u: UpdateView,
    now: u64,
    rest: Seq<(UpdateView, u64)>,
)
    ensures
        after_arrivals(g, Seq::empty()) == g,
        u.done ==> after_arrivals(g, seq![(u, now)] + rest) == recv_step(g, u, now),
        !u.done ==> after_arrivals(g, seq![(u, now)] + rest) == after_arrivals(
            recv_step(g, u, now),
            rest,
        ),
{
    let all = seq![(u, now)] + rest;
    assert(all[0] == (u, now));
    assert(all.drop_first() =~= rest);
}

// ---------------------------------------------------------------------------
// What holds of what is shown
// ---------------------------------------------------------------------------

/// A tab is shown as failed where it has an error, as done where it is over
/// without one, as waiting where one of the sides has yet to allow it, and as
/// running otherwise.
pub proof fn law_status_is_told(t: TabView)
    ensures
        status_of(t) == TabStatus::Failed <==> t.error is Some,
        status_of(t) == TabStatus::Done <==> t.error is None && t.done,
        status_of(t) == TabStatus::Waiting <==> t.error is None && !t.done && (if t.incoming {
            t.pending
        } else {
            t.awaiting
        }),
{
}

/// The window follows the user's choice of colours, and the system's where the
/// choice is left to it and it has one; else it is dark.
pub proof fn law_colours_follow_the_choice(theme: Theme, system_dark: Option<bool>)
    ensures
        theme == Theme::Dark ==> wants_dark(theme, system_dark),
        theme == Theme::Light ==> !wants_dark(theme, system_dark),
        theme == Theme::System ==> wants_dark(theme, system_dark) == (system_dark is None
            || system_dark->0),
{
}

/// The window is drawn often while anything moves: a page fades in, it listens or
/// searches, a transfer runs, or one waits for an answer.
pub proof fn law_busy_while_anything_moves(g: GuiView, fading: bool, i: int)
    ensures
        fading || g.listening || g.scanning ==> is_busy(g, fading),
        0 <= i < g.tabs.len() && (!g.tabs[i].done || g.tabs[i].pending) ==> is_busy(g, fading),
        !fading && !g.listening && !g.scanning && (forall|j: int|
            0 <= j < g.tabs.len() ==> (#[trigger] g.tabs[j]).done && !g.tabs[j].pending) ==> !is_busy(
            g,
            fading,
        ),
{
}

/// Closing a message closes the tab it belongs to, where it has one, and no other;
/// where that tab is shown, the window turns to sending.
pub proof fn law_closing_a_message_closes_its_tab(g: GuiView, i: int)
    requires
        0 <= i < g.tabs.len(),
    ensures
        popup_closed(g).popup is None,
        g.popup is None || g.popup->0.tab_id is None ==> popup_closed(g).tabs == g.tabs
            && popup_closed(g).page == g.page,
        g.popup is Some && g.popup->0.tab_id is Some ==> {
            let id = g.popup->0.tab_id->0;
            let after = popup_closed(g);
            &&& g.tabs[i].id != id ==> after.tabs.contains(g.tabs[i])
            &&& forall|j: int| 0 <= j < after.tabs.len() ==> (#[trigger] after.tabs[j]).id != id
            &&& forall|j: int|
                0 <= j < after.tabs.len() ==> g.tabs.contains(#[trigger] after.tabs[j])
            &&& after.page == if g.page == Page::Transfer(id) {
                Page::Send
            } else {
                g.page
            }
        },
        settings_of(popup_closed(g)) == settings_of(g),
        popup_closed(g).files == g.files,
{
    if g.popup is Some && g.popup->0.tab_id is Some {
        let id = g.popup->0.tab_id->0;
        let stays = |t: TabView| t.id != id;
        let after = g.tabs.filter(stays);
        if g.tabs[i].id != id {
            g.tabs.lemma_filter_contains(stays, i);
        }
        assert forall|j: int| 0 <= j < after.len() implies (#[trigger] after[j]).id != id by {
            g.tabs.lemma_filter_pred(stays, j);
        }
        assert forall|j: int| 0 <= j < after.len() implies g.tabs.contains(#[trigger] after[j]) by {
            g.tabs.lemma_filter_contains_rev(stays, after[j]);
        }
    }
}

/// What is remembered of a window is what its fields hold, and restoring it changes
/// nothing but these fields.
pub proof fn law_settings_are_the_fields(g: GuiView, s: SettingsView)
    ensures
        ({
            let kept = settings_of(g);
            &&& kept.target_name == g.target_name && kept.target_ip == g.target_ip
            &&& kept.port == g.port && kept.streams == g.streams
            &&& kept.checksum == g.checksum && kept.compress == g.compress
            &&& kept.overwrite == g.overwrite && kept.out_dir == g.out_dir
            &&& kept.recv_port == g.recv_port && kept.recv_overwrite == g.recv_overwrite
        }),
        settings_of(restored(g, s)) == s,
        restored(g, settings_of(g)) == g,
        restored(restored(g, s), settings_of(g)) == g,
{
}

/// Sending and receiving have the keys 0 and 1; that of a tab follows from its number.
pub proof fn law_pages_have_keys(p: Page)
    ensures
        key_of(Page::Send) == 0,
        key_of(Page::Receive) == 1,
        p is Transfer ==> key_of(p) == (p->Transfer_0 * 1000003 + 2) % 0x1_0000_0000_0000_0000,
{
}

/// The dots behind a text that waits are as many as asked for.
pub proof fn law_dots_are_counted(n: nat, i: int)
    ensures
        dots(n).len() == n,
        0 <= i < n ==> dots(n)[i] == '.',
{
}

} // verus!

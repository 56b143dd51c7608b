use filele::discovery::Peer;
use filele::gui::{
    dir_size, downloads_dir, folder_to_open, page_key, tab_status, waiting_text, Candidate, Gui,
    OfferFile, Page, Picked, Stamped, TabStatus, Theme, NO_DEVICE, NO_FILES, NO_FOLDER, OFFLINE,
};
use filele::palette::{set_palette, Rgb};
use filele::progress::{
    report_done, report_error, report_file, report_list, report_status, TransferFile,
    TransferUpdate, STOPPED_BY_RECEIVER, STOPPED_BY_SENDER,
};
use filele::settings::Settings;
use filele::tab::{file_name_of, says_stop, short_name, trunc};

const MS: u64 = 1_000_000;

fn candidate(id: usize, size: u64, there: bool) -> Candidate {
    Candidate { there, what: Picked { id, name: format!("f{}", id), size, is_dir: false } }
}

fn ready() -> Gui {
    let mut g = Gui::new("out".to_string(), 0);
    g.add_files(&vec![candidate(1, 10, true)]);
    let p = Peer::new("10.0.0.2".to_string(), false, 53317, "attic machine".to_string());
    g.select_device(&p);
    g.on_scan(Some(vec![p]), 0);
    g
}

fn sent(g: &mut Gui, us: Vec<TransferUpdate>, at: u64) {
    let batch: Vec<Stamped> = us.into_iter().map(|update| Stamped { update, at }).collect();
    g.poll(&vec![batch]);
}

#[test]
fn names_are_cut() {
    assert_eq!(short_name("attic machine"), "attic mach");
    assert_eq!(short_name("\u{e9}\u{e9}"), "\u{e9}\u{e9}");
    assert_eq!(short_name(""), "device");
    assert_eq!(trunc("hello", 5), "hello");
    assert_eq!(trunc("hello!", 5), "hell\u{2026}");
    assert_eq!(trunc("hello", 0), "\u{2026}");
    assert_eq!(file_name_of(Some("b".to_string()), "a/b".to_string()), "b");
    assert_eq!(file_name_of(None, "/".to_string()), "/");
}

#[test]
fn themes_have_names_and_colours() {
    assert_eq!(Theme::Dark.label(), "Dark");
    assert_eq!(Theme::Light.label(), "Light");
    assert_eq!(Theme::System.label(), "System");
    assert_eq!(set_palette(true).accent, Rgb { r: 47, g: 129, b: 247 });
    assert_eq!(set_palette(false).accent, Rgb { r: 9, g: 105, b: 218 });
    let mut g = Gui::new(String::new(), 0);
    assert!(!g.begin_frame(None, 5));
    assert!(g.begin_frame(Some(false), 6));
    assert!(!g.begin_frame(Some(false), 7));
    g.choose_theme(Theme::Dark);
    assert!(g.begin_frame(Some(false), 8));
}

#[test]
fn pages_are_told_apart() {
    assert_eq!(page_key(Page::Send), 0);
    assert_eq!(page_key(Page::Receive), 1);
    assert_eq!(page_key(Page::Transfer(1)), 1000005);
    assert_eq!(
        page_key(Page::Transfer(u64::MAX)),
        2u64.wrapping_add(u64::MAX.wrapping_mul(1000003))
    );
    let mut g = Gui::new(String::new(), 3);
    g.begin_frame(None, 10);
    assert_eq!(g.page_born, 3);
    g.show(Page::Receive);
    g.begin_frame(None, 11);
    assert_eq!(g.page_born, 11);
}

#[test]
fn picks_are_listed_once_and_added_up() {
    let mut g = Gui::new(String::new(), 0);
    g.add_files(&vec![candidate(1, 10, true), candidate(2, 5, false), candidate(1, 10, true)]);
    g.add_files(&vec![candidate(3, 7, true), candidate(1, 10, true)]);
    let ids: Vec<usize> = g.files.iter().map(|f| f.id).collect();
    assert_eq!(ids, vec![1, 3]);
    assert_eq!(g.files_size, 17);
    g.remove_file(0);
    assert_eq!(g.files_size, 7);
    g.clear_files();
    assert_eq!((g.files.len(), g.files_size), (0, 0));
    assert_eq!(dir_size(&vec![1, 2, 3]), 6);
}

#[test]
fn sending_needs_files_and_a_device() {
    let mut g = Gui::new(String::new(), 0);
    assert!(g.start_send(None, "me".to_string(), 0).is_none());
    assert_eq!(g.send_error, NO_FILES);
    g.add_files(&vec![candidate(1, 10, true)]);
    assert!(g.start_send(None, "me".to_string(), 0).is_none());
    assert_eq!(g.send_error, NO_DEVICE);
    g.target_ip = "10.0.0.2".to_string();
    assert!(g.start_send(None, "me".to_string(), 0).is_none());
    assert_eq!(g.send_error, OFFLINE);
    assert!(g.tabs.is_empty());
    let mut r = ready();
    assert!(r.start_send(Some("/gone".to_string()), "me".to_string(), 0).is_none());
    assert_eq!(r.send_error, "Not found: /gone");
}

#[test]
fn a_started_transfer_has_its_tab() {
    let mut g = ready();
    let o = g.start_send(None, "me".to_string(), 42).unwrap();
    assert_eq!((o.target.as_str(), o.port, o.streams), ("10.0.0.2", 53317, 4));
    assert!(o.checksum && !o.compress && o.overwrite);
    assert_eq!(o.sender_name, "me");
    assert_eq!(g.page, Page::Transfer(1));
    assert_eq!(g.next_id, 2);
    let t = &g.tabs[0];
    assert_eq!((t.id, t.started, t.awaiting, t.open), (1, 42, true, true));
    assert_eq!(t.label, "Connecting...");
    assert_eq!(t.tab_label(), "attic mach send");
    assert_eq!(tab_status(t), TabStatus::Waiting);
}

#[test]
fn the_chosen_device_can_go_offline() {
    let mut g = ready();
    assert!(g.target_online());
    assert!(g.is_selected(&Peer::new("10.0.0.2".into(), false, 53317, "x".into())));
    assert_eq!(g.shown_target(), "attic machine");
    g.on_scan(Some(vec![]), 1);
    assert!(!g.target_online());
    g.clear_target();
    assert_eq!(g.shown_target(), "Device");
}

#[test]
fn scans_grow_stale() {
    let mut g = Gui::new(String::new(), 0);
    assert!(g.scanning);
    g.on_scan(Some(vec![]), 1000 * MS);
    assert!(!g.scanning);
    g.on_scan(None, 4000 * MS);
    assert!(!g.scanning);
    g.on_scan(None, 4001 * MS);
    assert!(g.scanning);
}

fn files(sizes: &[u64]) -> Vec<TransferFile> {
    sizes
        .iter()
        .enumerate()
        .map(|(i, s)| TransferFile { name: format!("f{}", i), size: *s })
        .collect()
}

fn progress(g: &Gui) -> Vec<u64> {
    g.tabs[0].files.iter().map(|f| f.sent).collect()
}

#[test]
fn reports_move_the_bars() {
    let mut g = ready();
    g.start_send(None, "me".to_string(), 0);
    sent(&mut g, vec![report_list(60, "Waiting", files(&[10, 20, 30]))], 10 * MS);
    assert_eq!(progress(&g), vec![0, 0, 0]);
    assert!(g.tabs[0].awaiting);
    sent(&mut g, vec![report_file(15, 60, "f1", 1, 5)], 200 * MS);
    assert_eq!(progress(&g), vec![10, 5, 0]);
    assert_eq!((g.tabs[0].speed_bytes, g.tabs[0].speed_nanos), (15, 200 * MS));
    assert!(!g.tabs[0].awaiting);
    assert_eq!(g.tabs[0].active_since, Some(200 * MS));
    assert_eq!(tab_status(&g.tabs[0]), TabStatus::Running);
    sent(&mut g, vec![report_file(16, 60, "f1", 1, 99)], 210 * MS);
    assert_eq!(progress(&g), vec![10, 20, 0]);
    assert_eq!(g.tabs[0].last_tick, 200 * MS);
    sent(&mut g, vec![report_status(37, 0, "f2")], 211 * MS);
    assert_eq!(progress(&g), vec![10, 20, 7]);
    assert_eq!(g.tabs[0].total, 60);
}

#[test]
fn success_fills_the_bars() {
    let mut g = ready();
    g.start_send(None, "me".to_string(), 0);
    sent(&mut g, vec![report_list(30, "x", files(&[10, 20])), report_file(10, 30, "f0", 0, 10)], 5 * MS);
    sent(&mut g, vec![report_done(30, 30, "Done: all")], 25 * MS);
    let t = &g.tabs[0];
    assert_eq!(progress(&g), vec![10, 20]);
    assert!(t.done && !t.open && t.error.is_none());
    assert_eq!(t.took, 20 * MS);
    assert_eq!(t.done_msg, "Done: all");
    assert_eq!(tab_status(t), TabStatus::Done);
    assert!(g.popup.is_none());
}

#[test]
fn failures_are_shown_once() {
    let mut g = ready();
    g.start_send(None, "me".to_string(), 0);
    sent(&mut g, vec![report_error(0, 0, "disk full"), report_error(0, 0, "later")], 9 * MS);
    let p = g.popup.as_ref().unwrap();
    assert_eq!(p.title, "Transfer failed");
    assert_eq!(p.message, "disk full");
    assert_eq!(p.context, "Sending \u{b7} attic machine");
    assert_eq!(p.tab_id, Some(1));
    assert_eq!(tab_status(&g.tabs[0]), TabStatus::Failed);
    g.close_popup();
    assert!(g.popup.is_none() && g.tabs.is_empty());
    assert_eq!(g.page, Page::Send);
}

#[test]
fn what_is_over_stays_as_it_ended() {
    let mut g = ready();
    g.start_send(None, "me".to_string(), 0);
    sent(&mut g, vec![report_done(30, 30, "Done: all")], 9 * MS);
    assert!(!g.tabs[0].open);
    sent(&mut g, vec![report_error(1, 2, "late"), report_error(0, 0, STOPPED_BY_SENDER)], 19 * MS);
    assert!(g.popup.is_none() && g.tabs[0].error.is_none());
    assert_eq!((g.tabs[0].done_msg.as_str(), g.tabs[0].sent), ("Done: all", 30));
}

#[test]
fn tabs_of_stopped_transfers_are_closed() {
    for word in [STOPPED_BY_RECEIVER, STOPPED_BY_SENDER] {
        let mut g = ready();
        g.start_send(None, "me".to_string(), 0);
        sent(&mut g, vec![report_error(0, 0, word)], 9 * MS);
        assert!(g.tabs.is_empty() && g.popup.is_none());
        assert_eq!(g.page, Page::Send);
        assert!(says_stop(word));
    }
    assert!(!says_stop("Declined by receiver"));
}

fn offer() -> Vec<OfferFile> {
    vec![
        OfferFile { is_dir: true, rel: "d".into(), size: 0 },
        OfferFile { is_dir: false, rel: "d/a".into(), size: 4 },
    ]
}

#[test]
fn senders_can_be_let_in() {
    let mut g = Gui::new("save".to_string(), 0);
    let id = g.on_request("bob".into(), "10.0.0.7".into(), &offer(), 4, 3);
    assert_eq!((id, g.page), (1, Page::Transfer(1)));
    let t = &g.tabs[0];
    assert!(t.incoming && t.pending && !t.awaiting);
    assert_eq!((t.files.len(), t.total, t.save_dir.as_str()), (1, 4, "save"));
    assert_eq!(t.tab_label(), "bob recv");
    assert_eq!(tab_status(t), TabStatus::Waiting);
    g.allow(0, 77);
    assert!(!g.tabs[0].pending);
    assert_eq!((g.tabs[0].label.as_str(), g.tabs[0].started), ("Starting...", 77));
    sent(&mut g, vec![report_error(0, 0, STOPPED_BY_SENDER)], 99);
    assert_eq!(g.page, Page::Receive);
}

#[test]
fn senders_can_be_refused() {
    let mut g = Gui::new("save".to_string(), 0);
    g.on_request("bob".into(), "10.0.0.7".into(), &offer(), 4, 3);
    g.deny(0);
    assert!(g.tabs.is_empty());
    assert_eq!(g.page, Page::Receive);
    let id = g.on_request("bob".into(), "10.0.0.7".into(), &vec![], 4, 3);
    assert_eq!(id, 2);
    assert_eq!(g.find_tab(2), Some(0));
    assert_eq!(g.find_tab(1), None);
    g.stop(0);
    assert_eq!(g.page, Page::Receive);
    assert_eq!(g.shown_tab(2), None);
    assert_eq!(g.page, Page::Send);
}

#[test]
fn tabs_can_be_stopped_and_closed() {
    let mut g = ready();
    g.start_send(None, "me".to_string(), 0);
    g.start_send(None, "me".to_string(), 0);
    assert_eq!(g.tabs[1].id, 2);
    g.stop(0);
    assert_eq!(g.tabs[0].id, 2);
    assert_eq!(g.page, Page::Send);
    g.show(Page::Transfer(2));
    assert_eq!(g.shown_tab(2), Some(0));
    g.close(0);
    assert!(g.tabs.is_empty());
}

#[test]
fn listening_needs_a_folder() {
    let mut g = Gui::new("  ".to_string(), 0);
    assert_eq!(g.listen_folder(), None);
    assert_eq!(g.recv_error, NO_FOLDER);
    g.out_dir = " in ".to_string();
    assert_eq!(g.listen_folder(), Some("in".to_string()));
    g.folder_failed("denied");
    assert_eq!(g.recv_error, "Cannot create folder: denied");
    let o = g.listen(5);
    assert_eq!((o.bind.as_str(), o.port, o.out.as_str(), o.overwrite), ("0.0.0.0", 53317, "in", true));
    assert!(g.listening && g.recv_open);
    assert_eq!(g.listen_folder(), None);
    g.stop_listen();
    assert!(!g.listening);
}

fn arrivals(us: Vec<TransferUpdate>, at: u64) -> Vec<Stamped> {
    us.into_iter().map(|update| Stamped { update, at }).collect()
}

#[test]
fn arrivals_are_followed() {
    let mut g = Gui::new("in".to_string(), 0);
    g.listen(0);
    g.on_arrivals(&arrivals(vec![report_status(50, 100, "Receiving...")], 100 * MS));
    assert_eq!((g.recv.sent, g.recv.total, g.recv.label.as_str()), (50, 100, "Receiving..."));
    assert_eq!((g.recv.speed_bytes, g.recv.speed_nanos), (50, 100 * MS));
    g.on_arrivals(&arrivals(
        vec![report_done(100, 100, "Received 100 B"), report_status(9, 9, "lost")],
        200 * MS,
    ));
    assert_eq!((g.recv.sent, g.recv.total), (0, 0));
    assert_eq!(g.recv.last_done, "Received 100 B");
    assert!(g.listening);
    g.on_arrivals(&arrivals(vec![report_error(0, 0, "port in use?")], 300 * MS));
    assert_eq!(g.recv_error, "port in use?");
    assert!(!g.listening && !g.recv_open);
}

#[test]
fn the_window_is_drawn_often_only_while_something_moves() {
    let mut g = Gui::new(String::new(), 0);
    assert_eq!(g.repaint_after(false), 33);
    g.on_scan(Some(vec![]), 0);
    assert_eq!(g.repaint_after(false), 150);
    assert_eq!(g.repaint_after(true), 33);
    g.on_request("bob".into(), "ip".into(), &vec![], 0, 0);
    assert_eq!(g.repaint_after(false), 33);
}

#[test]
fn escape_closes_what_lies_on_top() {
    let mut g = Gui::new(String::new(), 0);
    g.toggle_settings();
    g.show_error("Couldn't open folder", "gone", "x");
    assert!(g.show_settings && g.popup.is_some());
    g.escape();
    assert!(!g.show_settings && g.popup.is_none());
    assert!(g.can_open());
}

#[test]
fn escape_closes_the_tab_of_a_failed_transfer() {
    let mut g = Gui::new(String::new(), 0);
    let id = g.on_request("bob".into(), "ip".into(), &vec![], 0, 0);
    g.poll(&vec![arrivals(vec![report_error(0, 0, "disk full")], 9)]);
    assert_eq!(g.popup.as_ref().unwrap().tab_id, Some(id));
    assert_eq!(g.page, Page::Transfer(id));
    g.escape();
    assert!(g.popup.is_none() && g.tabs.is_empty());
    assert_eq!(g.page, Page::Send);
}

#[test]
fn small_texts_and_choices() {
    assert_eq!(waiting_text("Waiting", 0), "Waiting");
    assert_eq!(waiting_text("Waiting", 7), "Waiting...");
    assert_eq!(downloads_dir(Some("C:\\Users\\a".into())), "C:\\Users\\a\\Downloads");
    assert_eq!(downloads_dir(None), ".");
    assert_eq!(folder_to_open("a".into(), true, Some("b".into())), "a");
    assert_eq!(folder_to_open("a".into(), false, Some("b".into())), "b");
    assert_eq!(folder_to_open("a".into(), false, None), "a");
}

#[test]
fn settings_survive_a_restart() {
    let mut g = ready();
    g.out_dir = "C:\\in \"box\"\n\u{1}\u{e9}".to_string();
    g.streams = 8;
    g.compress = true;
    g.recv_port = 65535;
    let json = g.settings().to_json();
    assert_eq!(
        json,
        "{\"target_name\":\"attic machine\",\"target_ip\":\"10.0.0.2\",\"port\":53317,\"streams\":8,\
         \"checksum\":true,\"compress\":true,\"overwrite\":true,\
         \"out_dir\":\"C:\\\\in \\\"box\\\"\\u000a\\u0001\u{e9}\",\"recv_port\":65535,\
         \"recv_overwrite\":true}"
    );
    let s = Settings::from_json(&json).unwrap();
    let mut fresh = Gui::new(String::new(), 0);
    fresh.restore(s);
    assert_eq!(fresh.out_dir, g.out_dir);
    assert_eq!((fresh.port, fresh.streams, fresh.recv_port), (53317, 8, 65535));
    assert!(fresh.compress);
    assert_eq!(fresh.settings().to_json(), json);
}

#[test]
fn other_texts_are_no_settings() {
    let good = Gui::new("x".to_string(), 0).settings().to_json();
    assert!(Settings::from_json(&good).is_some());
    for bad in [
        "".to_string(),
        "{}".to_string(),
        good[..good.len() - 1].to_string(),
        format!("{} ", good),
        good.replace("53317", "65536"),
        good.replace(":4,", ":256,"),
        good.replace("true", "yes"),
        good.replace("\"x\"", "\"\\q\""),
    ] {
        assert!(Settings::from_json(&bad).is_none(), "{}", bad);
    }
}

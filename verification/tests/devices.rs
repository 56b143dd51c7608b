use filele::discovery::{
    is_among, is_question, list_ips, list_peers, parse_reply, peer_of_text, reply_text, Peer,
};

#[test]
fn only_the_question_is_a_question() {
    assert!(is_question(b"FLLE_DISCOVER_v1"));
    assert!(!is_question(b"FLLE_DISCOVER_v1 "));
    assert!(!is_question(b"FLLE_DISCOVER_v2"));
    assert!(!is_question(b""));
}

#[test]
fn answers_name_host_port_and_version() {
    assert_eq!(reply_text("attic", 53317), "FLLE_HERE_v1 attic 53317 1");
}

#[test]
fn answers_are_understood() {
    let msg = reply_text("attic", 4000);
    assert_eq!(parse_reply(msg.as_bytes()), Some(("attic".to_string(), 4000)));
    assert_eq!(parse_reply(b"FLLE_HERE_v1 "), Some(("?".to_string(), 53317)));
    assert_eq!(parse_reply(b"FLLE_HERE_v1 pc"), Some(("pc".to_string(), 53317)));
    assert_eq!(parse_reply(b"FLLE_HERE_v1 pc 70000 1"), Some(("pc".to_string(), 53317)));
    assert_eq!(parse_reply(b"FLLE_HERE_v1 pc x 1"), Some(("pc".to_string(), 53317)));
    assert_eq!(parse_reply(b"FLLE_HERE_v1 two words 1"), Some(("two".to_string(), 53317)));
    assert_eq!(parse_reply(b"FLLE_HERE_v2 pc 1 1"), None);
    assert_eq!(parse_reply(b"FLLE"), None);
    assert_eq!(peer_of_text("a 1"), ("a".to_string(), 1));
}

#[test]
fn answers_in_broken_utf8_are_mended() {
    let mut msg = b"FLLE_HERE_v1 p".to_vec();
    msg.push(0xFF);
    msg.extend_from_slice(b" 80 1");
    assert_eq!(parse_reply(&msg), Some(("p\u{fffd}".to_string(), 80)));
}

fn peer(ip: &str, port: u16, name: &str) -> Peer {
    Peer::new(ip.to_string(), ip.contains(':'), port, name.to_string())
}

#[test]
fn addresses_are_written_with_their_port() {
    assert_eq!(peer("10.0.0.2", 53317, "a").addr, "10.0.0.2:53317");
    assert_eq!(peer("fe80::1", 80, "a").addr, "[fe80::1]:80");
}

#[test]
fn peers_are_listed_by_address_and_once() {
    let answered = vec![
        peer("10.0.0.9", 1, "nine"),
        peer("10.0.0.10", 1, "ten"),
        peer("10.0.0.9", 1, "nine again"),
        peer("10.0.0.9", 2, "nine two"),
        peer("10.0.0.1", 1, "me"),
    ];
    let r = list_peers(answered, &vec!["10.0.0.1".to_string()]);
    let got: Vec<(String, String)> = r.iter().map(|p| (p.addr.clone(), p.name.clone())).collect();
    assert_eq!(
        got,
        vec![
            ("10.0.0.10:1".to_string(), "ten".to_string()),
            ("10.0.0.9:1".to_string(), "nine".to_string()),
            ("10.0.0.9:2".to_string(), "nine two".to_string()),
        ]
    );
}

#[test]
fn own_addresses_are_listed_once() {
    let ips = ["b", "a", "b", "c", "a"].iter().map(|s| s.to_string()).collect();
    assert_eq!(list_ips(ips), vec!["a", "b", "c"]);
    assert!(is_among("a", &vec!["x".to_string(), "a".to_string()]));
    assert!(!is_among("a", &vec![]));
}

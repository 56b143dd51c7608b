use filele::progress::{
    human_bytes, mismatch_text, report_done, report_error, report_failure, report_file,
    report_list, report_recv_failure, report_status, TransferFile, DECLINED, STOPPED_BY_RECEIVER,
    STOPPED_BY_SENDER,
};
use filele::sender::shown_name;
use filele::text::{
    chars_of, join_texts, parse_u16, push_decimal, same_text, split_words, text_before, trim, white,
};

fn by_floats(n: u64) -> String {
    const U: [&str; 5] = ["B", "KB", "MB", "GB", "TB"];
    let mut v = n as f64;
    let mut u = 0;
    while v >= 1024.0 && u + 1 < U.len() {
        v /= 1024.0;
        u += 1;
    }
    if u == 0 {
        format!("{} {}", n, U[u])
    } else {
        format!("{:.2} {}", v, U[u])
    }
}

#[test]
fn amounts_in_words() {
    assert_eq!(human_bytes(0), "0 B");
    assert_eq!(human_bytes(1023), "1023 B");
    assert_eq!(human_bytes(1024), "1.00 KB");
    assert_eq!(human_bytes(1536), "1.50 KB");
    assert_eq!(human_bytes(1_048_575), "1024.00 KB");
    assert_eq!(human_bytes(5 * 1024 * 1024 * 1024), "5.00 GB");
    assert_eq!(human_bytes(u64::MAX), "16777216.00 TB");
}

#[test]
fn amounts_agree_with_floating_point() {
    let mut seed: u64 = 0x9E37_79B9_7F4A_7C15;
    for i in 0..200_000u64 {
        seed ^= seed << 13;
        seed ^= seed >> 7;
        seed ^= seed << 17;
        let n = seed >> (i % 64);
        assert_eq!(human_bytes(n), by_floats(n), "{}", n);
    }
    for k in 0..64u32 {
        for d in 0..40u64 {
            let n = (1u64 << k).wrapping_add(d).wrapping_sub(20);
            assert_eq!(human_bytes(n), by_floats(n), "{}", n);
        }
    }
    // Halves of a hundredth.
    for m in 0..20_000u64 {
        let n = 1024 * 1024 + m * 128;
        assert_eq!(human_bytes(n), by_floats(n), "{}", n);
        let g = (1u64 << 40) + m * (1 << 27);
        assert_eq!(human_bytes(g), by_floats(g), "{}", g);
    }
}

#[test]
fn reports_carry_what_they_are_given() {
    let f = report_file(5, 10, "a.txt", 2, 3);
    assert_eq!((f.sent_bytes, f.total_bytes, f.label.as_str(), f.done), (5, 10, "a.txt", false));
    assert_eq!((f.file_index, f.file_sent), (Some(2), Some(3)));
    assert!(f.error.is_none() && f.files.is_none());
    let l = report_list(9, "go", vec![TransferFile { name: "x".into(), size: 9 }]);
    assert_eq!((l.sent_bytes, l.total_bytes, l.file_index, l.file_sent), (0, 9, Some(0), Some(0)));
    assert_eq!(l.files.unwrap()[0].name, "x");
    let d = report_done(7, 8, "ok");
    assert!(d.done && d.error.is_none() && d.file_index.is_none() && d.label == "ok");
    let e = report_error(1, 2, "bad");
    assert!(e.done && e.label.is_empty());
    assert_eq!(e.error.as_deref(), Some("bad"));
    let s = report_status(1, 2, "waiting");
    assert!(!s.done && s.error.is_none() && s.label == "waiting" && s.file_sent.is_none());
}

#[test]
fn broken_connections_mean_that_the_receiver_stopped() {
    assert_eq!(report_failure(true, "reset").error.as_deref(), Some(STOPPED_BY_RECEIVER));
    assert_eq!(report_failure(false, "reset").error.as_deref(), Some("reset"));
    assert_eq!(report_recv_failure(true, "reset").error.as_deref(), Some(STOPPED_BY_SENDER));
    assert_eq!(report_recv_failure(false, "full").error.as_deref(), Some("full"));
    assert_eq!(STOPPED_BY_RECEIVER, "Stopped by receiver");
    assert_eq!(STOPPED_BY_SENDER, "Stopped by sender");
    assert_eq!(DECLINED, "Declined by receiver");
    assert_eq!(mismatch_text(12), "12 checksum mismatches");
}

#[test]
fn white_space_is_that_of_unicode() {
    for u in 0..=0x10FFFFu32 {
        if let Some(c) = char::from_u32(u) {
            assert_eq!(white(c), c.is_whitespace(), "{:x}", u);
        }
    }
}

#[test]
fn trimming_and_splitting_agree_with_std() {
    for s in ["", "  ", " a ", "\u{3000}x y\t", "one  two\nthree", "\u{85}n\u{a0}", "plain"] {
        assert_eq!(trim(s), s.trim());
        let want: Vec<String> = s.split_whitespace().map(|w| w.to_string()).collect();
        assert_eq!(split_words(s), want);
    }
}

#[test]
fn texts_are_ordered_as_their_bytes() {
    let all = ["", "a", "A", "ab", "b", "\u{e9}", "\u{ffff}", "\u{10000}", "a/b", "a.b", "z"];
    for x in all {
        for y in all {
            assert_eq!(text_before(x, y), x <= y, "{} {}", x, y);
            assert_eq!(same_text(x, y), x == y);
            assert_eq!(join_texts(x, y), format!("{}{}", x, y));
        }
    }
}

#[test]
fn port_numbers_parse_as_in_std() {
    for s in ["0", "80", "65535", "65536", "99999999999", "+7", "+", "-1", "", "1a", " 1", "007"] {
        assert_eq!(parse_u16(s), s.parse::<u16>().ok(), "{}", s);
    }
}

#[test]
fn decimals_are_written_plainly() {
    for n in [0u64, 9, 10, 1234567890, u64::MAX] {
        let mut s = String::from("=");
        push_decimal(&mut s, n);
        assert_eq!(s, format!("={}", n));
    }
    assert_eq!(chars_of("a\u{e9}b"), vec!['a', '\u{e9}', 'b']);
}

#[test]
fn senders_go_by_their_name_or_their_machine() {
    assert_eq!(shown_name("  Ann's PC ", "box"), "Ann's PC");
    assert_eq!(shown_name(" \t", " box "), "box");
}

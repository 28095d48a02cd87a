use my_toolkit::broker::{brokers, fetch_start, FETCH_BACK};
use my_toolkit::message::Message;

#[test]
fn message_keeps_its_parts() {
    let m = Message::new(42, b"key", b"value");
    assert_eq!(m.offset, 42);
    assert_eq!(m.key, b"key");
    assert_eq!(m.value, b"value");
}

#[test]
fn message_text_of_utf8() {
    let m = Message::new(-1, "k\u{e9}".as_bytes(), b"{\"a\":1}");
    assert_eq!(m.key_text(), "k\u{e9}");
    assert_eq!(m.value_text(), "{\"a\":1}");
}

#[test]
fn message_text_of_other_bytes() {
    let m = Message::new(0, b"", b"a\xffb");
    assert_eq!(m.key_text(), "");
    assert_eq!(m.value_text(), "a\u{fffd}b");
}

#[test]
fn fetch_starts_thirty_three_back() {
    assert_eq!(FETCH_BACK, 33);
    assert_eq!(fetch_start(100), 67);
    assert_eq!(fetch_start(0), -33);
    assert_eq!(fetch_start(i64::MIN + 33), i64::MIN);
    assert_eq!(fetch_start(i64::MAX), i64::MAX - 33);
}

#[test]
fn brokers_splits_at_commas() {
    assert_eq!(brokers("a:9092,b:9092,c:9092"), vec!["a:9092", "b:9092", "c:9092"]);
    assert_eq!(brokers("only"), vec!["only"]);
    assert_eq!(brokers("h\u{e9}te,\u{4e2d}"), vec!["h\u{e9}te", "\u{4e2d}"]);
}

#[test]
fn brokers_keeps_empty_parts() {
    assert_eq!(brokers(""), vec![""]);
    assert_eq!(brokers(","), vec!["", ""]);
    assert_eq!(brokers("a,,b"), vec!["a", "", "b"]);
    assert_eq!(brokers("a,"), vec!["a", ""]);
    assert_eq!(brokers(",a"), vec!["", "a"]);
}

#[test]
fn brokers_is_the_split_of_strings() {
    for hosts in ["", "x", "x,y", ",,", "a, b ,c", "k1:1,k2:2,"] {
        let expected: Vec<String> = hosts.split(",").map(|s| s.to_string()).collect();
        assert_eq!(brokers(hosts), expected);
        assert_eq!(brokers(hosts).join(","), hosts);
    }
}

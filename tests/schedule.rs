use eisenhower_todo::schedule::{parse_seconds, script_interval, DEFAULT_INTERVAL_SECS};

#[test]
fn interval_defaults_to_five_minutes() {
    assert_eq!(DEFAULT_INTERVAL_SECS, 300);
    assert_eq!(script_interval(None), Some(300));
}

#[test]
fn interval_reads_the_setting() {
    assert_eq!(script_interval(Some("60")), Some(60));
    assert_eq!(script_interval(Some("+007")), Some(7));
    assert_eq!(script_interval(Some("0")), Some(0));
    assert_eq!(script_interval(Some("soon")), None);
}

#[test]
fn seconds_parse_like_u64() {
    for text in ["0", "42", "+42", "0042", "18446744073709551615", "", "+", "-1", " 1", "1 ", "18446744073709551616", "99999999999999999999", "1_000", "٣"] {
        assert_eq!(parse_seconds(text), text.parse::<u64>().ok(), "{:?}", text);
    }
}

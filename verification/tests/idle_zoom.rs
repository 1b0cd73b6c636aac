use devtracker::idle::{is_screen_locked, parse_hid_idle_nanos, parse_u64_text};
use devtracker::zoom::{is_in_meeting, process_count};

#[test]
fn idle_time_is_read_from_ioreg_output() {
    let out = "+-o IOHIDSystem\n    | {\n    |   \"HIDIdleTime\" = 1234567890\n    | }\n";
    assert_eq!(parse_hid_idle_nanos(out), Some(1234567890));
}

#[test]
fn idle_time_skips_lines_without_a_number() {
    let out = "\"HIDIdleTime\" = oops\r\n\"HIDIdleTime\" = 42\r\n";
    assert_eq!(parse_hid_idle_nanos(out), Some(42));
    assert_eq!(parse_hid_idle_nanos("nothing here\n"), None);
    assert_eq!(parse_hid_idle_nanos(""), None);
    assert_eq!(parse_hid_idle_nanos("\"HIDIdleTime\" = 7 = 8"), Some(7));
}

#[test]
fn u64_parsing_matches_std() {
    for s in ["0", "+5", "-5", "+", "", "18446744073709551615", "18446744073709551616", "1a", "007"] {
        assert_eq!(parse_u64_text(s), s.parse::<u64>().ok(), "{s:?}");
    }
}

#[test]
fn screen_counts_as_locked_after_five_minutes() {
    assert!(is_screen_locked(true, None));
    assert!(!is_screen_locked(false, None));
    assert!(!is_screen_locked(false, Some(300_000_000_000)));
    assert!(is_screen_locked(false, Some(300_000_000_001)));
}

#[test]
fn meetings_are_detected_from_processes() {
    assert!(is_in_meeting(true, None, false));
    assert!(is_in_meeting(false, Some(3), false));
    assert!(!is_in_meeting(false, Some(2), false));
    assert!(is_in_meeting(false, None, true));
    assert!(!is_in_meeting(false, None, false));
}

#[test]
fn pgrep_output_is_counted_by_lines() {
    assert_eq!(process_count(true, "12\n34\n56\n"), 3);
    assert_eq!(process_count(false, "ignored\n"), 0);
    assert_eq!(process_count(true, ""), 0);
}

use kraken_rs::cancel::{esc_currently_suppressed, now_ms, stop_requested, suppress_synthetic_esc};
use kraken_rs::drills::drill_presets;
use kraken_rs::text::{
    count_matching_chars, is_blank, is_trigger_char, leading_whitespace,
    python_predicted_auto_indent,
};

#[test]
fn leading_whitespace_handles_spaces_and_tabs() {
    assert_eq!(leading_whitespace("  code"), "  ");
    assert_eq!(leading_whitespace("\t\tcode"), "\t\t");
    assert_eq!(leading_whitespace("no indent"), "");
    assert_eq!(leading_whitespace("   "), "   ");
}

#[test]
fn predicted_indent_grows_on_colon() {
    let line = "def foo():";
    assert_eq!(python_predicted_auto_indent(line), "    ");
    assert_eq!(python_predicted_auto_indent("x = 1"), "");
}

#[test]
fn trigger_chars_detected() {
    assert!(is_trigger_char('('));
    assert!(!is_trigger_char('a'));
}

#[test]
fn drills_available() {
    assert!(drill_presets().len() >= 5);
    assert!(drill_presets().iter().all(|d| !d.is_empty()));
}

#[test]
fn synthetic_esc_window_expires() {
    let mut suppressed_until: u64 = 0;
    assert!(!esc_currently_suppressed(now_ms(), suppressed_until));
    suppressed_until = suppress_synthetic_esc(now_ms(), 60_000);
    assert!(esc_currently_suppressed(now_ms(), suppressed_until));
    suppressed_until = now_ms().saturating_sub(1);
    assert!(!esc_currently_suppressed(now_ms(), suppressed_until));
}

#[test]
fn leading_whitespace_stops_at_other_whitespace() {
    assert_eq!(leading_whitespace(" \t x"), " \t ");
    assert_eq!(leading_whitespace("\n  x"), "");
    assert_eq!(leading_whitespace(""), "");
}

#[test]
fn predicted_indent_keeps_indentation_and_ignores_trailing_space() {
    assert_eq!(python_predicted_auto_indent("    if x:   "), "        ");
    assert_eq!(python_predicted_auto_indent("\tfor i in r:\t\n"), "\t    ");
    assert_eq!(python_predicted_auto_indent("  return 1"), "  ");
    assert_eq!(python_predicted_auto_indent(":x"), "");
    assert_eq!(python_predicted_auto_indent(""), "");
    // Unicode whitespace (NO-BREAK SPACE) is trimmed like str::trim_end does.
    assert_eq!(python_predicted_auto_indent("else:\u{a0}"), "    ");
}

#[test]
fn all_trigger_chars_detected() {
    for c in ['.', ':', '(', '[', ')', ']', ',', '>', '{', '}', ';', '='] {
        assert!(is_trigger_char(c), "{c:?}");
    }
    for c in ['<', '"', ' ', '\t', 'x', '0', '-', '+'] {
        assert!(!is_trigger_char(c), "{c:?}");
    }
}

#[test]
fn matching_chars_counts_common_prefix() {
    assert_eq!(count_matching_chars("hello", "help"), 3);
    assert_eq!(count_matching_chars("hello", "hello world"), 5);
    assert_eq!(count_matching_chars("", "abc"), 0);
    assert_eq!(count_matching_chars("abc", "xbc"), 0);
    assert_eq!(count_matching_chars("héllo", "héllx"), 4);
}

#[test]
fn blank_text_is_only_whitespace() {
    assert!(is_blank(""));
    assert!(is_blank(" \t\n\u{3000}"));
    assert!(!is_blank("  a "));
}

#[test]
fn stop_requested_from_either_source() {
    assert!(!stop_requested(false, false));
    assert!(stop_requested(true, false));
    assert!(stop_requested(false, true));
    assert!(stop_requested(true, true));
}

#[test]
fn suppression_deadline_is_window_after_send() {
    assert_eq!(suppress_synthetic_esc(1_000, 300), 1_300);
    assert!(esc_currently_suppressed(1_299, 1_300));
    assert!(!esc_currently_suppressed(1_300, 1_300));
}

#[test]
fn now_ms_reads_the_clock() {
    // Some time after 2020-01-01.
    assert!(now_ms() > 1_577_836_800_000);
}

use srt_summarizer::srt::{clean_srt, line_is_kept};
use srt_summarizer::prompts::{normalize_document, is_srt_extension};

#[test]
fn clean_srt_drops_index_and_timestamp() {
    let out = clean_srt("1\n00:00:01,000 --> 00:00:04,000\nHello world\n");
    assert_eq!(out, "Hello world");
}

#[test]
fn clean_srt_two_entries() {
    let input = "1\n00:00:01,000 --> 00:00:04,000\nHello world\n\n2\n00:00:05,500 --> 00:00:07,250\nSecond line\n";
    assert_eq!(clean_srt(input), "Hello world Second line");
}

#[test]
fn clean_srt_handles_crlf() {
    let input = "1\r\n00:00:01,000 --> 00:00:04,000\r\nHello\r\n";
    assert_eq!(clean_srt(input), "Hello");
}

#[test]
fn clean_srt_joins_plain_lines() {
    assert_eq!(clean_srt("Just a line\nAnother line"), "Just a line Another line");
}

#[test]
fn clean_srt_idempotent_on_clean_text() {
    let once = clean_srt("Just a line\nAnother line");
    assert_eq!(clean_srt(&once), once);
}

#[test]
fn clean_srt_join_may_form_timestamp_across_lines() {
    // Each line alone holds no complete timestamp range, so both are
    // kept; the join then forms one, so a second pass drops it. This is
    // the one way a second normalization can differ from the first.
    let once = clean_srt("ends 00:00:01,000\n--> 00:00:04,000 more\n");
    assert_eq!(once, "ends 00:00:01,000 --> 00:00:04,000 more");
    assert_eq!(clean_srt(&once), "");
}

#[test]
fn clean_srt_keeps_non_ascii_lines() {
    assert_eq!(clean_srt("1\nnaïve héros\n"), "naïve héros");
}

#[test]
fn clean_srt_empty_input() {
    assert_eq!(clean_srt(""), "");
}

#[test]
fn clean_srt_drops_timestamp_inside_line() {
    let out = clean_srt("before 00:00:01,000 --> 00:00:04,000 after\nkept\n");
    assert_eq!(out, "kept");
}

#[test]
fn clean_srt_drops_padded_sequence_number() {
    assert_eq!(clean_srt("  42  \nwords\n"), "words");
}

#[test]
fn line_kept_rejects_blank_and_digits() {
    assert!(!line_is_kept(""));
    assert!(!line_is_kept("   \t "));
    assert!(!line_is_kept("123"));
    assert!(!line_is_kept("00:00:01,000 --> 00:00:04,000"));
}

#[test]
fn line_kept_accepts_content() {
    assert!(line_is_kept("Hello world"));
    assert!(line_is_kept("42a"));
    // too few millisecond digits: not a timestamp range
    assert!(line_is_kept("00:00:01,00 --> 00:00:04,00"));
}

#[test]
fn normalize_document_by_extension() {
    let raw = "1\n00:00:01,000 --> 00:00:04,000\nHello\n";
    assert_eq!(normalize_document(raw, "srt"), "Hello");
    assert_eq!(normalize_document(raw, "SRT"), "Hello");
    assert_eq!(normalize_document(raw, "txt"), raw);
}

#[test]
fn srt_extension_is_case_insensitive() {
    assert!(is_srt_extension("srt"));
    assert!(is_srt_extension("SRT"));
    assert!(is_srt_extension("Srt"));
    assert!(!is_srt_extension("txt"));
    assert!(!is_srt_extension("sr"));
    assert!(!is_srt_extension("srtx"));
}

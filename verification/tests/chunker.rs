use srt_summarizer::chunker::split_text;

#[test]
fn split_basic_no_overlap() {
    let chunks = split_text("one two three four five", 2, 0);
    assert_eq!(chunks, vec!["one two", "three four", "five"]);
}

#[test]
fn split_with_overlap() {
    let text = "w0 w1 w2 w3 w4 w5 w6 w7 w8 w9";
    let chunks = split_text(text, 4, 2);
    assert_eq!(chunks, vec!["w0 w1 w2 w3", "w2 w3 w4 w5", "w4 w5 w6 w7", "w6 w7 w8 w9"]);
}

#[test]
fn split_overlap_at_size_still_terminates() {
    let chunks = split_text("a b c", 2, 2);
    assert_eq!(chunks, vec!["a b", "b c"]);
}

#[test]
fn split_overlap_above_size_still_terminates() {
    let chunks = split_text("a b c", 2, 7);
    assert_eq!(chunks, vec!["a b", "b c"]);
}

#[test]
fn split_exact_word_count_gives_one_chunk() {
    let chunks = split_text("alpha beta gamma", 3, 0);
    assert_eq!(chunks, vec!["alpha beta gamma"]);
}

#[test]
fn split_short_text_gives_one_chunk() {
    let chunks = split_text("hello world", 2000, 200);
    assert_eq!(chunks, vec!["hello world"]);
}

#[test]
fn split_empty_text_gives_no_chunks() {
    let chunks = split_text("", 5, 1);
    assert!(chunks.is_empty());
}

#[test]
fn split_whitespace_only_gives_no_chunks() {
    let chunks = split_text(" \t\r\n  ", 5, 0);
    assert!(chunks.is_empty());
}

#[test]
fn split_collapses_whitespace_runs() {
    let chunks = split_text("  a\t\tb \n c  ", 10, 0);
    assert_eq!(chunks, vec!["a b c"]);
}

#[test]
fn split_handles_non_ascii_words() {
    let chunks = split_text("héllo wörld über", 1, 0);
    assert_eq!(chunks, vec!["héllo", "wörld", "über"]);
}

#[test]
fn split_large_document_two_chunks() {
    let words: Vec<String> = (0..2500).map(|i| format!("w{}", i)).collect();
    let text = words.join(" ");
    let chunks = split_text(&text, 2000, 200);
    assert_eq!(chunks.len(), 2);
    assert_eq!(chunks[0], words[0..2000].join(" "));
    assert_eq!(chunks[1], words[1800..2500].join(" "));
}

use srt_summarizer::pipeline::Pipeline;
use srt_summarizer::prompts::{
    build_map_prompt, build_combine_prompt, combine_partials, output_file_name,
};

const MAP_PREFIX: &str = "Write a detailed summary of this text section in bullet points.\nUse '-' for bullet points and answer only the bullet points.\nText:\n";
const COMBINE_PREFIX: &str = "Combine these summaries into a final summary in bullet points.\nUse '-' for bullet points and answer only the bullet points.\nText:\n";

#[test]
fn map_prompt_embeds_chunk() {
    let p = build_map_prompt("CHUNK");
    assert_eq!(p, format!("{}CHUNK\n\nSUMMARY:", MAP_PREFIX));
}

#[test]
fn combine_prompt_embeds_summaries() {
    let p = build_combine_prompt("ALL");
    assert_eq!(p, format!("{}ALL\n\nFINAL SUMMARY:", COMBINE_PREFIX));
}

#[test]
fn combine_partials_blank_line_separated() {
    let parts = vec!["- a".to_string(), "- b".to_string(), "- c".to_string()];
    assert_eq!(combine_partials(&parts), "- a\n\n- b\n\n- c");
    assert_eq!(combine_partials(&vec!["solo".to_string()]), "solo");
    assert_eq!(combine_partials(&Vec::new()), "");
}

#[test]
fn output_name_appends_summary_suffix() {
    assert_eq!(output_file_name("notes"), "notes_summary.txt");
    assert_eq!(output_file_name(""), "_summary.txt");
}

#[test]
fn pipeline_empty_document_is_done_without_calls() {
    let p = Pipeline::start("", 2000, 200);
    assert!(p.is_done());
    assert_eq!(p.chunk_count(), 0);
    assert_eq!(p.next_prompt(), None);
    assert_eq!(p.final_summary(), Some(String::new()));
}

#[test]
fn pipeline_single_chunk_still_reduces() {
    let mut p = Pipeline::start("hello world", 2000, 200);
    assert_eq!(p.chunk_count(), 1);
    assert!(!p.is_done());
    assert_eq!(p.final_summary(), None);

    let prompt = p.next_prompt().unwrap();
    assert_eq!(prompt, build_map_prompt("hello world"));
    p.record_response("- the partial".to_string());

    let reduce = p.next_prompt().unwrap();
    assert_eq!(reduce, build_combine_prompt("- the partial"));
    p.record_response("- the final".to_string());

    assert!(p.is_done());
    assert_eq!(p.next_prompt(), None);
    assert_eq!(p.final_summary(), Some("- the final".to_string()));
}

#[test]
fn pipeline_large_document_map_reduce() {
    let words: Vec<String> = (0..2500).map(|i| format!("w{}", i)).collect();
    let text = words.join(" ");
    let mut p = Pipeline::start(&text, 2000, 200);
    assert_eq!(p.chunk_count(), 2);
    assert_eq!(*p.chunk_at(0), words[0..2000].join(" "));
    assert_eq!(*p.chunk_at(1), words[1800..2500].join(" "));

    let first = p.next_prompt().unwrap();
    assert_eq!(first, build_map_prompt(&words[0..2000].join(" ")));
    p.record_response("- first part".to_string());

    let second = p.next_prompt().unwrap();
    assert_eq!(second, build_map_prompt(&words[1800..2500].join(" ")));
    p.record_response("- second part".to_string());

    let reduce = p.next_prompt().unwrap();
    assert_eq!(reduce, build_combine_prompt("- first part\n\n- second part"));
    assert!(!p.is_done());
    p.record_response("- merged".to_string());

    assert!(p.is_done());
    assert_eq!(p.final_summary(), Some("- merged".to_string()));
}

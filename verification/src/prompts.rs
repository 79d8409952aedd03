//! Prompt construction for the map and reduce calls to the text
//! generation service, and derivation of the output file name.

use vstd::prelude::*;
use vstd::string::*;
use crate::words::join_sep;

verus! {

/// Instruction text placed before a chunk in a map prompt.
pub open spec fn map_prompt_prefix() -> Seq<char> {
    "Write a detailed summary of this text section in bullet points.\nUse '-' for bullet points and answer only the bullet points.\nText:\n"@
}

/// Text placed after the chunk in a map prompt.
pub open spec fn map_prompt_suffix() -> Seq<char> {
    "\n\nSUMMARY:"@
}

/// The full map prompt for one chunk.
pub open spec fn map_prompt_of(text: Seq<char>) -> Seq<char> {
    map_prompt_prefix() + text + map_prompt_suffix()
}

/// Instruction text placed before the concatenated partial summaries in
/// the reduce prompt.
pub open spec fn combine_prompt_prefix() -> Seq<char> {
    "Combine these summaries into a final summary in bullet points.\nUse '-' for bullet points and answer only the bullet points.\nText:\n"@
}

/// Text placed after the concatenated partial summaries in the reduce
/// prompt.
pub open spec fn combine_prompt_suffix() -> Seq<char> {
    "\n\nFINAL SUMMARY:"@
}

/// The full reduce prompt for the combined partial summaries.
pub open spec fn combine_prompt_of(text: Seq<char>) -> Seq<char> {
    combine_prompt_prefix() + text + combine_prompt_suffix()
}

/// Build the map prompt: the instruction template with the chunk text
/// substituted in.
pub fn build_map_prompt(text: &str) -> (r: String)
    ensures
        r@ == map_prompt_of(text@),
{
    let mut r = String::from_str(
        "Write a detailed summary of this text section in bullet points.\nUse '-' for bullet points and answer only the bullet points.\nText:\n",
    );
    r.append(text);
    r.append("\n\nSUMMARY:");
    r
}

/// Build the reduce prompt: the combine template with the concatenated
/// partial summaries substituted in.
pub fn build_combine_prompt(text: &str) -> (r: String)
    ensures
        r@ == combine_prompt_of(text@),
{
    let mut r = String::from_str(
        "Combine these summaries into a final summary in bullet points.\nUse '-' for bullet points and answer only the bullet points.\nText:\n",
    );
    r.append(text);
    r.append("\n\nFINAL SUMMARY:");
    r
}

/// Concatenate the partial summaries, a blank line between neighbours.
pub fn combine_partials(parts: &Vec<String>) -> (r: String)
    ensures
        r@ == join_sep(parts.deep_view(), "\n\n"@),
{
    let mut r = String::new();
    let mut k: usize = 0;
    proof {
        assert(parts.deep_view().subrange(0, 0) =~= Seq::<Seq<char>>::empty());
    }
    while k < parts.len()
        invariant
            k <= parts.len(),
            r@ == join_sep(parts.deep_view().subrange(0, k as int), "\n\n"@),
        decreases parts.len() - k,
    {
        let ghost prefix = parts.deep_view().subrange(0, k as int);
        if k > 0 {
            r.append("\n\n");
        }
        r.append(parts[k].as_str());
        proof {
            assert(parts.deep_view()[k as int] == parts@[k as int]@);
            crate::words::lemma_join_sep_push(prefix, "\n\n"@, parts.deep_view()[k as int]);
            assert(parts.deep_view().subrange(0, k + 1) =~= prefix.push(
                parts.deep_view()[k as int],
            ));
        }
        k = k + 1;
    }
    proof {
        assert(parts.deep_view().subrange(0, parts.len() as int) =~= parts.deep_view());
    }
    r
}

/// The name of the default output file beside the input: the input
/// file's stem followed by `_summary.txt`.
pub fn output_file_name(stem: &str) -> (r: String)
    ensures
        r@ == stem@ + "_summary.txt"@,
{
    let mut r = String::from_str(stem);
    r.append("_summary.txt");
    r
}

/// Whether a file extension names the subtitle format, compared without
/// regard to case.
pub open spec fn is_srt_ext(e: Seq<char>) -> bool {
    e.len() == 3 && (e[0] == 's' || e[0] == 'S') && (e[1] == 'r' || e[1] == 'R') && (e[2] == 't'
        || e[2] == 'T')
}

/// Runtime test for [`is_srt_ext`].
pub fn is_srt_extension(ext: &str) -> (r: bool)
    ensures
        r == is_srt_ext(ext@),
{
    let n = ext.unicode_len();
    if n != 3 {
        return false;
    }
    let c0 = ext.get_char(0);
    let c1 = ext.get_char(1);
    let c2 = ext.get_char(2);
    (c0 == 's' || c0 == 'S') && (c1 == 'r' || c1 == 'R') && (c2 == 't' || c2 == 'T')
}

/// The document handed to the pipeline: subtitle files are normalized,
/// any other file is passed through unchanged.
pub open spec fn normalized_doc(text: Seq<char>, ext: Seq<char>) -> Seq<char> {
    if is_srt_ext(ext) {
        crate::srt::clean_srt_spec(text)
    } else {
        text
    }
}

/// Normalize the raw file content according to its extension.
pub fn normalize_document(text: &str, ext: &str) -> (r: String)
    ensures
        r@ == normalized_doc(text@, ext@),
{
    if is_srt_extension(ext) {
        crate::srt::clean_srt(text)
    } else {
        String::from_str(text)
    }
}

} // verus!

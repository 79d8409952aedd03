//! Verified map-reduce summarization pipeline for plain-text and
//! subtitle-format documents.
//!
//! The library covers the logic of the pipeline: stripping subtitle
//! sequence numbers and timestamp lines, splitting a document into
//! overlapping word-based chunks, building the prompts sent to a text
//! generation service, and sequencing the map and reduce phases.
//! Reading files, writing the result and talking to the generation
//! service over the network are left to the surrounding application.

pub mod chars;
pub mod chunker;
pub mod pipeline;
pub mod prompts;
pub mod srt;
pub mod words;

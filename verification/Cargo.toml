[package]
name = "srt_summarizer"
version = "0.1.0"
edition = "2021"
publish = false

[dependencies]
langchain-rust = "*"
serde_json = "*"
tokio = { version = "*", features = ["macros", "rt-multi-thread"] }

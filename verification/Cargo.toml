[package]
name = "assistant_prompts"
version = "0.1.0"
edition = "2021"
publish = false

[dependencies]
anyhow = "=1.0.104"
tiktoken-rs = "=0.5.9"

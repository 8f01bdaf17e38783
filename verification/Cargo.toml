[package]
name = "csep"
version = "0.1.0"
edition = "2021"
publish = false

[dependencies]
anyhow = "1"
async-trait = "0.1"
atty = "0.2"
bincode = "1"
clap = { version = "4", features = ["derive"] }
dirs = "*"
futures = "0.3"
ignore = "0.4"
memmap2 = "0.9"
rayon = "1"
reqwest = { version = "0.12", default-features = false }
serde = { version = "1", features = ["derive"] }
serde_json = "1"
sha2 = "0.10"
spinners = "4"
text-splitter = { version = "*", features = ["tiktoken-rs"] }
tiktoken-rs = "*"
tokio = { version = "1", features = ["macros", "rt-multi-thread"] }
tracing = "0.1"
tracing-subscriber = "0.3"

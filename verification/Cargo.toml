[package]
name = "harper_ls"
version = "0.1.0"
edition = "2021"
publish = false

[dependencies]
anyhow = "1"
futures = "0.3"
open = "5"
serde_json = "1"
tokio = { version = "1", features = ["fs", "macros", "rt", "rt-multi-thread", "sync", "time"] }
tower-lsp-server = "0.22"
tracing = "0.1"

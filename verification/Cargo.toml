[package]
name = "crdt_db"
version = "0.1.0"
edition = "2021"
publish = false

[dependencies]
serde = { version = "1", features = ["derive"] }
ron = "0.8"
rand = "0.8"
tokio = { version = "1", features = ["net", "rt", "rt-multi-thread", "macros", "sync"] }
ratatui = "0.29"
tui-textarea = "0.7"
hyper = { version = "1", features = ["server", "http1"] }

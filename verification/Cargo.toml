[package]
name = "ord"
version = "0.1.0"
edition = "2021"
publish = false

[dependencies]
regex = "1"
uuid = { version = "1", features = ["v7", "serde"] }
serde = { version = "1", features = ["derive"] }
ciborium = "0.2"
clap = { version = "4", features = ["derive"] }
color-eyre = "0.6"
ratatui = { version = "0.29", features = ["unstable-widget-ref"] }
tui-textarea = "0.7"
itertools = "0.13"
rust-fuzzy-search = "0.1"

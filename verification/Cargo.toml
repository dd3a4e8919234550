[package]
name = "duplicated_deps"
version = "0.1.0"
edition = "2021"
publish = false

[dependencies]
anyhow = "1"
cargo-lock = "*"
clap = { version = "4", features = ["derive"] }
color-eyre = "0.6"
crossterm = "0.27"
reqwest = { version = "0.12", features = ["json"] }
semver = "1"
serde = { version = "1", features = ["derive"] }
serde_json = "1"
tokio = { version = "1", features = ["fs", "macros", "rt-multi-thread"] }

[package]
name = "bp_review"
version = "0.1.0"
edition = "2021"
publish = false

[dependencies]
xml-rs = "0.8"
serde = { version = "1", features = ["derive"] }
serde-xml-rs = "0.6"
quick-xml = { version = "0.31", features = ["serialize"] }
toml = "0.8"
ratatui = "0.26"
crossterm = "0.27"

[package]
name = "gitstream"
version = "0.1.0"
edition = "2021"
publish = false

[dependencies]
imara-diff = "=0.2.0"
unicode-width = "=0.2.0"
anyhow = "=1.0.104"
clap = { version = "=4.6.7", features = ["derive"] }
crossbeam-channel = "=0.5.17"
crossterm = "=0.28.1"
ratatui = "=0.29.0"
gix = { version = "=0.90.0", default-features = false, features = ["status", "sha1", "parallel"] }
notify = "=8.2.1"
notify-debouncer-full = "=0.5.0"
terminal-colorsaurus = "=1.0.3"
thiserror = "=2.0.21"
tracing = "=0.1.44"
tracing-subscriber = { version = "=0.3.23", features = ["env-filter", "fmt"] }

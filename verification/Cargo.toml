[package]
name = "rusize"
version = "0.1.0"
edition = "2021"
publish = false

[dependencies]
anyhow = "1"
clap = { version = "4", features = ["derive"] }
colored = "*"
crossterm = "=0.28.1"
csv = "1"
enable-ansi-support = "*"
is-root = "*"
open = "*"
ratatui = "=0.29.0"
rayon = "1"
serde = { version = "1", features = ["derive"] }
serde_json = "1"
sysinfo = "*"
urlencoding = "2"

[package]
name = "lanzaboote_tool"
version = "0.1.0"
edition = "2021"
publish = false

[dependencies]
anyhow = "1"
clap = { version = "4", features = ["derive"] }
log = "0.4"
sha2 = "0.10"
tempfile = "3"
time = "0.3"

[package]
name = "jj_pr"
version = "0.1.0"
edition = "2021"
publish = false

[dependencies]
anstream = "0.6"
anstyle = "1"
anyhow = "1"
clap = { version = "4", features = ["derive"] }
ref-cast = "1"
rustix = { version = "1", features = ["termios"] }
sapling-renderdag = "0.1"
serde = { version = "1", features = ["derive"] }
serde_json = "1"
slotmap = "=1.0.7"
textwrap = "=0.16.2"
tracing = "0.1"
tracing-subscriber = "0.3"

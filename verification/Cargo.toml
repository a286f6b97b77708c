[package]
name = "fixlog"
version = "0.1.0"
edition = "2021"
publish = false

[dependencies]
memchr = "2"
smallvec = "1"
regex = "1"
rayon = "1"
thiserror = "2"
tracing = "0.1"
tracing-subscriber = { version = "0.3", features = ["env-filter"] }
anyhow = "1"
clap = { version = "4", features = ["derive"] }
flate2 = "1"
memmap2 = "0.9"
notify = "*"
tempfile = "3"
libc = "0.2"

[package]
name = "zstd_bench"
version = "0.1.0"
edition = "2021"
publish = false

[dependencies]
clap = "2"
fasthash = "0.4"
glob = "0.3"
itertools = "0.10"
libc = "0.2"
serde = { version = "1", features = ["derive"] }
serde_json = "1"
toml = "0.5"

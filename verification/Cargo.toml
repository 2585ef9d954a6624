[package]
name = "meow"
version = "0.1.0"
edition = "2021"
publish = false

[dependencies]
zstd = "*"
xxhash-rust = { version = "*", features = ["xxh3"] }
minisign = "*"
minisign-verify = "*"
redb = "*"
clap = { version = "*", features = ["derive"] }
toml = "*"
serde = { version = "*", features = ["derive"] }
nix = { version = "*", features = ["user"] }
dirs = "*"

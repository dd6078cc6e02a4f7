[package]
name = "just_enough_vcs"
version = "0.1.0"
edition = "2021"
publish = false

[dependencies]
sha2 = "0.10"
blake3 = { version = "1", features = ["pure"] }
just_fmt = "*"
strip-ansi-escapes = "0.2"
tokio = { version = "1", features = ["fs", "io-util", "rt", "macros"] }
memmap2 = "0.9"
hex = "0.4"
log = "0.4"
serde = { version = "1", features = ["derive"] }
serde_json = "1"
serde_yaml = "0.9"
toml = "0.8"
thiserror = "2"

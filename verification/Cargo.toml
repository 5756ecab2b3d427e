[package]
name = "pirx"
version = "0.1.0"
edition = "2021"
publish = false

[dependencies]
clap = { version = "4", features = ["derive"] }
serde = { version = "1", features = ["derive"] }
serde_json = "1"
toml = "0.8"
thiserror = "2"
rand = "0.9"
rand_chacha = "0.9"
rand_distr = "0.5"
rayon = "1"
smallvec = "1"
slotmap = "1"
oq3_semantics = "0.7"
oq3_source_file = "0.7"
tket-json-rs = "*"

[package]
name = "eijiro_parser"
version = "0.1.0"
edition = "2021"
publish = false

[dependencies]
fst = { version = "0.4", features = ["levenshtein"] }
clap = "2"
log = "0.4"
pretty_env_logger = "0.4"

[dev-dependencies]
regex = "1"
bincode = "1"
serde = "1"

[package]
name = "bernbot"
version = "0.1.0"
edition = "2021"
publish = false

[dependencies]
markov = "=1.1.0"
rand = "=0.8.8"
fuzzy-matcher = "=0.3.7"
lz4_flex = "=0.14.0"
tokio = { version = "=1.53.2", features = ["rt-multi-thread", "time", "fs", "macros", "sync"] }
async-trait = "=0.1.92"

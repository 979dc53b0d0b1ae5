[package]
name = "wasm_dedupe"
version = "0.1.0"
edition = "2021"
publish = false

[dependencies]
anyhow = "*"
blake3 = "*"
env_logger = "*"
log = "*"
structopt = "0.3"
walkdir = "*"
wasmparser = "*"

[package]
name = "codetracer_circom_recorder"
version = "0.1.0"
edition = "2021"
publish = false

[dependencies]
clap = { version = "=4.6.7", features = ["derive"] }
eyre = "=0.6.14"
num-bigint = "=0.4.8"
serde = { version = "=1.0.229", features = ["derive"] }
serde_json = "=1.0.154"
tempfile = "=3.27.0"
wasmtime = "=46.0.3"
codetracer_trace_types = "=0.16.3"

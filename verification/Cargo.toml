[package]
name = "rustscope"
version = "0.3.1"
edition = "2021"
publish = false

[dependencies]
serde = { version = "=1.0.229", features = ["derive"] }
serde_json = "=1.0.154"
once_cell = "=1.21.4"
parking_lot = "=0.12.5"
ctrlc = "=3.5.2"
libc = "=0.2.191"
backtrace = "=0.3.77"
tracing-core = "=0.1.36"
tracing-subscriber = "=0.3.23"
perf-event = "=0.4.9"
anyhow = "=1.0.104"
chrono = "=0.4.45"
clap = { version = "=4.6.7", features = ["derive"] }
tokio = { version = "=1.54.1", features = ["full"] }
nix = { version = "=0.31.3", features = ["signal"] }
procfs = "=0.18.0"
num_cpus = "=1.17.0"
proc-macro2 = "=1.0.107"
quote = "=1.0.47"
syn = { version = "=2.0.119", features = ["full"] }

[package]
name = "cargo_downgrade"
version = "0.1.0"
edition = "2021"
publish = false

[dependencies]
cargo-lock = { version = "*", features = ["dependency-tree"] }
chrono = "*"
clap = { version = "*", features = ["derive"] }
crates_io_api = "*"
error_reporter = "*"
log = "*"
petgraph = "*"
simple_logger = "*"
thiserror = "*"
tokio = { version = "*", features = ["macros", "rt-multi-thread"] }

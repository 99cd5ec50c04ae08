[package]
name = "sn_cli"
version = "0.1.0"
edition = "2021"
publish = false

[dependencies]
bytes = "=1.12.1"
clap = { version = "=4.6.7", features = ["derive"] }
color-eyre = "=0.6.5"
dirs-next = "=2.0.0"
futures = "=0.3.34"
hex = "=0.4.3"
indicatif = "=0.17.11"
tokio = { version = "=1.54.1", features = ["fs", "rt", "macros"] }
tracing = "=0.1.44"
xor_name = "=5.0.0"

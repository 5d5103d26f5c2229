[package]
name = "rdirstat"
version = "0.1.0"
edition = "2021"
publish = false

[dependencies]
humansize = "2"
serde_json = { version = "1", features = ["preserve_order"] }
clap = { version = "4", features = ["derive"] }
crossbeam = "0.8"
ratatui = "*"
crossterm = "*"
ignore = "0.4"
num_cpus = "1"
thiserror = "*"
serde = { version = "1", features = ["derive"] }

[dev-dependencies]
tempfile = "3"

[package]
name = "sztools"
version = "0.1.0"
edition = "2021"
publish = false

[dependencies]
stringzilla = { version = "*", features = ["std", "cpus"] }
glob = "0.3"
ignore = "0.4"
memmap2 = "0.9"
clap = { version = "4", features = ["derive"] }

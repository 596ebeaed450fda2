[package]
name = "loggregate"
version = "0.1.0"
edition = "2021"
publish = false

[dependencies]
regex = "1"
chrono = "0.4"
clap = { version = "4", features = ["derive"] }
glob = "0.3"
fs_extra = "1"
plotters = "0.3"

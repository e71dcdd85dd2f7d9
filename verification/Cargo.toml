[package]
name = "core_to_core_latency"
version = "1.2.0"
edition = "2021"
publish = false

[dependencies]
ansi_term = "0.12"
clap = { version = "3.2", features = ["derive"] }
core_affinity = "0.5"
crossbeam-utils = "0.8"
memmap2 = "0.9"
ndarray = "0.15"
quanta = "0.10"

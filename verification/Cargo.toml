[package]
name = "log_cruncher"
version = "0.1.0"
edition = "2021"
publish = false

[dependencies]
clap = "2"
crossbeam = "0.8"
num_cpus = "1"
serde_json = "1"
thiserror = "1"

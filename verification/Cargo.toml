[package]
name = "cache_server"
version = "0.1.0"
edition = "2021"
publish = false

[dependencies]
glob = "*"
clap = "*"
crossbeam = "*"
mio = { version = "*", features = ["os-poll", "net"] }
num_cpus = "*"

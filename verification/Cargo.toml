[package]
name = "dutopia"
version = "0.1.0"
edition = "2021"
publish = false

[dependencies]
zstd = "*"
anyhow = "*"
clap = { version = "*", features = ["derive", "env"] }
crossbeam = "*"
libc = "*"
hostname = "*"
num_cpus = "*"

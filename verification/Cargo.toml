[package]
name = "simagef"
version = "0.1.0"
edition = "2021"
publish = false

[dependencies]
anyhow = "1"
bytemuck = "1"
clap = { version = "4", features = ["derive"] }
crossbeam = "0.8"
image = "*"
image-compare = "*"
indicatif = "*"
lsh-rs2 = "*"
num_cpus = "1"
platform-dirs = "*"
rusqlite = { version = "*", features = ["bundled"] }

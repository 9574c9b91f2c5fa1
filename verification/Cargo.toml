[package]
name = "fs_mirror"
version = "0.1.0"
edition = "2021"
publish = false

[dependencies]
chrono = "*"
clap = { version = "*", features = ["derive"] }
jwalk = "*"
num_cpus = "*"
rayon = "*"
uuid = { version = "*", features = ["v4"] }

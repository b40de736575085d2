[package]
name = "n-body"
version = "0.1.0"
edition = "2021"
publish = false

[dependencies]
bitcode = { version = "=0.6.9", features = ["serde"] }
clap = { version = "=4.6.7", features = ["derive"] }
mpi = { version = "=0.8.2", features = ["derive"] }
rand = "=0.8.8"
rayon = "=1.12.0"
serde = { version = "=1.0.229", features = ["derive"] }

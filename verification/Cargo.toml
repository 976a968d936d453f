[package]
name = "syslab"
version = "0.1.0"
edition = "2021"
publish = false

[dependencies]
sha-crypt = "0.5"
rand = "0.8"
nix = { version = "0.27", features = ["signal", "resource", "process"] }
libc = "0.2.151"
indicatif = "0.17"
rayon = "1"
scoped_threadpool = "0.1"
num_cpus = "1"
anyhow = "1"
chrono = "0.4"

[dev-dependencies]
clap = { version = "4.1.11", features = ["cargo"] }

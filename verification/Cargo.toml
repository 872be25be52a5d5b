[package]
name = "secko"
version = "0.1.0"
edition = "2021"
publish = false

[dependencies]
atomic-counter = "=1.0.1"
bincode = "=1.3.3"
clap = { version = "=4.6.7", features = ["cargo"] }
lockfree = "=0.5.1"
ocaml = { version = "=1.3.0", default-features = false, features = ["derive", "without-ocamlopt"] }
rand = "=0.8.8"
serde = { version = "=1.0.229", features = ["derive"] }

[package]
name = "m1-fmt"
version = "0.1.0"
edition = "2021"
publish = false

[dependencies]
toml = "0.9"
clap = { version = "4", features = ["derive"] }
rayon = "1"
libc = "0.2"

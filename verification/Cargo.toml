[package]
name = "scancost"
version = "0.1.0"
edition = "2021"
publish = false

[dependencies]
rug = { version = "=1.19.2", default-features = false, features = ["integer", "rational"] }
gmp-mpfr-sys = { version = "*", default-features = false, features = ["use-system-libs"] }
rand = "=0.8.8"
clap = { version = "=4.6.7", features = ["derive"] }

[package]
name = "uip"
version = "0.1.0"
edition = "2021"
publish = false

[dependencies]
bytes = "*"
rustls = { version = "*", default-features = false, features = ["ring", "std", "tls12"] }
interfaces = "*"

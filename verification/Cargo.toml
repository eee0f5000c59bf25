[package]
name = "rustaria"
version = "0.1.0"
edition = "2021"
publish = false

[dependencies]
bimap = "=0.6.3"
uuid = { version = "=1.27.0", features = ["v4"] }
rayon = "=1.12.0"
crossbeam = "=0.8.5"

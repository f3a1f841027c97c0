[package]
name = "fonttype"
version = "0.1.0"
edition = "2021"
publish = false

[dependencies]
brotli = "*"
flate2 = "*"
kurbo = "*"
thiserror = "*"
clap = { version = "*", features = ["derive"] }
image = { version = "*", default-features = false, features = ["png"] }

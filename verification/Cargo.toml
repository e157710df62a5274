[package]
name = "pkz"
version = "0.1.0"
edition = "2021"
publish = false

[dependencies]
suffix_array = "*"
radsort = "*"
clap = { version = "4", features = ["derive"] }
colored = "*"
log = "*"
sha256 = { version = "*", default-features = false }
simple_logger = "*"

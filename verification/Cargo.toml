[package]
name = "public_api"
version = "0.1.0"
edition = "2021"
publish = false

[dependencies]
diff = "0.1"
yansi = "0.5"
rustdoc-types = "0.20"

[package]
name = "gmimc_rust_test"
version = "0.1.0"
edition = "2021"
publish = false

[dependencies]
num-bigint = "0.4"
ff = { version = "0.13", features = ["derive"] }
plotters = { version = "0.3", default-features = false, features = ["bitmap_backend", "bitmap_encoder"] }

[package]
name = "qsc_fir_transforms"
version = "0.1.0"
edition = "2021"
publish = false

[dependencies]
rustc-hash = "2"
miette = "7"
thiserror = "2"

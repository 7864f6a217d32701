[package]
name = "tsdistances"
version = "0.1.0"
edition = "2021"
publish = false

[dependencies]
rayon = "=1.12.0"
rustfft = "=6.4.1"

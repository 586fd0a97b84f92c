[package]
name = "float_duration"
version = "0.1.0"
edition = "2021"
publish = false

[dependencies]
approx = "0.1"
chrono = "0.4"
serde = "1"

[package]
name = "galax"
version = "0.1.0"
edition = "2021"
publish = false

[dependencies]
fastrand = "2"
thiserror = "1"
clap = { version = "4", features = ["derive"] }
indicatif = "0.17"
rayon = "1"

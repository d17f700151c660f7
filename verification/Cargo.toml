[package]
name = "schattenweg_core"
version = "0.1.0"
edition = "2021"
publish = false

[dependencies]
osmpbf = "*"
thiserror = "*"
uniffi = "*"

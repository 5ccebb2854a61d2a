[package]
name = "galaw"
version = "0.1.0"
edition = "2021"
publish = false

[dependencies]
nalgebra = "0.30.1"
roxmltree = "*"
thiserror = "*"

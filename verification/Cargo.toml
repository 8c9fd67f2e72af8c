[package]
name = "rolldown"
version = "0.1.0"
edition = "2021"
publish = false

[dependencies]
index_vec = "0.1"
tracing = "0.1"

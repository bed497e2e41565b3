[package]
name = "vm_perf"
version = "0.1.0"
edition = "2021"
publish = false

[dependencies]
object = { version = "0.36", default-features = false, features = ["read", "std"] }

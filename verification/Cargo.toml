[package]
name = "object_kernel"
version = "0.1.0"
edition = "2021"
publish = false

[dependencies]
limine = "=0.5.0"
spin = "=0.9.9"
x86 = "=0.52.0"
x86_64 = { version = "=0.14.13", default-features = false, features = ["instructions"] }

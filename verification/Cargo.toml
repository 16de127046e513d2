[package]
name = "syskrnl"
version = "0.1.0"
edition = "2021"
publish = false

[dependencies]
lazy_static = "1"
object = { version = "*", default-features = false, features = ["read_core", "elf"] }
spin = "0.9"
x86_64 = { version = "0.14", default-features = false, features = ["instructions"] }

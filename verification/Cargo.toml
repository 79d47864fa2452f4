[package]
name = "maturin_core"
version = "0.1.0"
edition = "2021"
publish = false

[dependencies]
bitflags = "*"
buddy_system_allocator = "*"
lazy_static = "*"
log = "*"
numeric-enum-macro = "*"

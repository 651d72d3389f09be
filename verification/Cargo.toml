[package]
name = "coredit"
version = "0.1.0"
edition = "2021"
publish = false

[dependencies]
ropey = { version = "1", default-features = false }
itertools = "0.10"
thiserror = "1"
derive_more = "0.99"

[package]
name = "ratspeak_nomad"
version = "0.1.0"
edition = "2021"
publish = false

[dependencies]
hex = "0.4"
rmpv = "1"
thiserror = "*"
tokio = { version = "1", default-features = false, features = ["sync"] }
nomad-core = "*"

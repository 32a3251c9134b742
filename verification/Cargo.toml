[package]
name = "mapf_game"
version = "0.1.0"
edition = "2021"
publish = false

[dependencies]
rand = "0.9"
derive_more = { version = "*", features = ["display"] }

[package]
name = "rust_game_common"
version = "0.1.0"
edition = "2021"
publish = false

[dependencies]
rand = "0.9"
ron = "0.8"
serde = "1"

[package]
name = "hotkey_listener"
version = "0.1.0"
edition = "2021"
publish = false

[dependencies]
crossbeam-channel = "=0.5.17"
livesplit-hotkey = "0.6.0"
gdnative = "=0.11.3"

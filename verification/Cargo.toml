[package]
name = "system_trace"
version = "0.1.0"
edition = "2021"
publish = false

[dependencies]
chacha20poly1305 = "0.10"
rand = "0.8"
image = "0.25"
keyring = { version = "3", features = ["apple-native", "windows-native", "linux-native"] }

[package]
name = "shrincs"
version = "0.1.0"
edition = "2021"
publish = false

[dependencies]
ckb-opt-sha256 = "=0.1.0"
getrandom = "=0.2.17"
aes = "=0.8.4"
wasm-bindgen = "=0.2.130"
ckb-std = "=1.1.0"

[dev-dependencies]
sha2 = "0.10"

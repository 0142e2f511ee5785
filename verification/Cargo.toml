[package]
name = "peermux"
version = "0.1.0"
edition = "2021"
publish = false

[dependencies]
snow = { version = "=0.9.6", features = ["risky-raw-split", "xchachapoly"] }
rand = "=0.8.8"
chacha20 = "=0.9.1"
blake2 = "=0.10.6"
futures = "=0.3.34"
futures-timer = "=3.0.4"
async-std = "=1.13.2"
log = "=0.4.34"

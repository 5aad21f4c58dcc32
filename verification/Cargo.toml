[package]
name = "streamlet"
version = "0.1.0"
edition = "2021"
publish = false

[dependencies]
chrono = "0.4"
rand = "0.8"
sled = "0.34"
async-std = "1"
async-trait = "0.1"
futures = "0.3"
socket2 = "0.4"
url = "2"
libc = "0.2"
log = "0.4"
serde = { version = "1", features = ["derive"] }

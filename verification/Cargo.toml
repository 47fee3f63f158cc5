[package]
name = "rustnat"
version = "0.1.0"
edition = "2021"
publish = false

[dependencies]
slotmap = "1"
rand = "0.8"
pnet = "0.34"
chrono = "0.4"
tokio = { version = "1", features = ["full"] }
futures = "0.3"
tun = { version = "0.6", features = ["async"] }

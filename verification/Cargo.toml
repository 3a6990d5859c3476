[package]
name = "esm"
version = "0.1.0"
edition = "2021"
publish = false

[dependencies]
bytes = "1"
etherparse = "*"
netconfig = "*"
num_cpus = "1"
tokio = { version = "1", features = ["full"] }
arc-swap = "1"
once_cell = "1"
enum-map = "2"
dashmap = "*"
socket2 = { version = "0.5", features = ["all"] }
thiserror = "*"
futures-util = "0.3"
avl = "*"

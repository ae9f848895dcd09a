[package]
name = "rengine"
version = "0.1.0"
edition = "2021"
publish = false

[dependencies]
slotmap = "=1.1.1"
num-traits = "=0.2.19"
chrono = "=0.4.45"
crossbeam = "0.8"
walkdir = "2"
toml = "0.5"
serde = { version = "1", features = ["derive"] }
log = "0.4"
rlua = "0.17"

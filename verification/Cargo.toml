[package]
name = "deq_runtime"
version = "0.1.0"
edition = "2021"
publish = false

[dependencies]
binar = "=0.1.8"
futures-util = "=0.3.34"
hashbrown = "=0.17.1"
ndarray = "=0.16.1"
num-traits = "=0.2.19"
pyo3 = { version = "=0.30.1", features = ["abi3-py39"] }
rand = "=0.10.3"
rayon = "=1.12.0"
relay-bp = "=0.2.2"
serde = { version = "=1.0.229", features = ["derive"] }
serde_json = "=1.0.154"
sprs = "=0.11.3"
tokio = { version = "=1.54.1", features = ["sync", "rt", "rt-multi-thread", "macros", "time"] }
tokio-util = "=0.7.20"
tonic = { version = "=0.14.9", default-features = false }

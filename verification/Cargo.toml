[package]
name = "datafusion_ray"
version = "0.1.0"
edition = "2021"
publish = false

[dependencies]
arrow = { version = "=59.3.2", default-features = false, features = ["pyarrow"] }
arrow-flight = "=59.3.2"
async-stream = "=0.3.6"
futures = "=0.3.34"
itertools = "=0.14.0"
local-ip-address = "=0.6.13"
log = "=0.4.35"
parking_lot = "=0.12.5"
prost = "=0.14.4"
pyo3 = "=0.29.3"
pyo3-async-runtimes = { version = "=0.29.0", features = ["tokio-runtime"] }
tokio = { version = "=1.54.1", features = ["macros", "net", "rt-multi-thread", "sync", "time"] }
tokio-stream = { version = "=0.1.19", features = ["net"] }
tonic = "=0.14.9"

[package]
name = "attpc_conduit"
version = "0.1.0"
edition = "2021"
publish = false

[dependencies]
fxhash = "0.2"
log = "0.4"
numpy = "0.21"
pyo3 = "0.21"
pyo3-log = "0.10"
tokio = { version = "1", features = ["rt-multi-thread", "net", "io-util", "sync", "time", "macros"] }
tracing = "0.1"

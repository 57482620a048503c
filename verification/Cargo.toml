[package]
name = "dozer_pipeline"
version = "0.1.0"
edition = "2021"
publish = false

[dependencies]
crossbeam = "0.8"
daggy = "0.8"
diesel = { version = "2", default-features = false }
lmdb-rkv = "0.14"
num-traits = "0.2"
thiserror = "1"
tokio = { version = "1", features = ["rt", "rt-multi-thread"] }
web3 = { version = "0.18", default-features = false }

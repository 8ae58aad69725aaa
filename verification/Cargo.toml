[package]
name = "diffviz"
version = "0.1.0"
edition = "2021"
publish = false

[dependencies]
sha2 = "0.10"
chrono = "0.4"
uuid = { version = "1", features = ["v4"] }
serde = { version = "1", features = ["derive"] }
serde_json = "1"
serde_yaml = "0.9"
thiserror = "1"
memmap2 = "0.9"
roaring = "0.10"
smallvec = "1"
wyrand = { version = "0.3", features = ["rand_core"] }
rand_core = "0.6"
simsimd = "*"

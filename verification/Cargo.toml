[package]
name = "rustytree"
version = "0.2.1"
edition = "2021"
publish = false

[dependencies]
async-trait = "0.1"
chrono = { version = "=0.4.45", default-features = false, features = ["clock", "serde"] }
futures = { version = "0.3", default-features = false, features = ["alloc", "async-await", "std"] }
icechunk = { version = "=2.0.5", default-features = false, features = ["object-store-azure", "object-store-fs", "object-store-gcs", "object-store-http", "redirect"] }
icechunk-arrow-object-store = { version = "=2.0.5", default-features = false }
icechunk-format = "=2.0.5"
icechunk-storage = "=2.0.5"
icechunk-types = "=2.0.5"
numpy = "0.28"
pyo3 = { version = "0.28", features = ["chrono", "abi3-py311"] }
rmp-serde = "1"
serde = { version = "1", features = ["derive"] }
serde_json = "=1.0.154"
thiserror = "2"
tokio = { version = "1", features = ["rt-multi-thread", "sync"] }
typetag = "=0.2.21"
zarrs = { version = "=0.23.14", default-features = false, features = ["async", "blosc", "crc32c", "gzip", "sharding", "transpose", "zlib", "zstd"] }
zarrs_icechunk = { version = "=0.5.1", default-features = false }
zarrs_object_store = { version = "=0.6.2", default-features = false, features = ["aws", "fs"] }
zarrs_storage = { version = "=0.4.5", default-features = false, features = ["async"] }

[package]
name = "compress_lab"
version = "0.1.0"
edition = "2021"
publish = false

[dependencies]
rdxsort = "*"
thiserror = "*"
text_io = "*"
tracing = "0.1"
tracing-subscriber = { version = "0.3", features = ["env-filter"] }
chrono = "0.4"

[dev-dependencies]
base64 = "0.22"
rand = "0.8"

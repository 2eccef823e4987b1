[package]
name = "wasi_pyrb_diff_test"
version = "0.1.0"
edition = "2021"
publish = false

[dependencies]
rustc-hash = "1.1.0"
docker-api = "0.14"
tokio = { version = "1", features = ["full"] }
futures = "0.3"

[dev-dependencies]
regex = "1"

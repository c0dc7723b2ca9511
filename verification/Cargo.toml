[package]
name = "witchbooru"
version = "0.1.0"
edition = "2021"
publish = false

[dependencies]
image = { version = "*", default-features = false, features = ["png", "jpeg", "gif", "bmp", "webp"] }
itertools = "*"
tract-onnx = "*"
ndarray-npy = "*"
serde = { version = "1", features = ["derive"] }
serde_json = "1"
thiserror = "*"
anyhow = "1"
structopt = "0.3"
percent-encoding = "2"
log = "0.4"
env_logger = "*"
futures = "0.3"
tokio = { version = "1", features = ["macros", "rt-multi-thread", "sync", "io-util"] }
reqwest = { version = "0.11", default-features = false, features = ["stream", "rustls-tls"] }
rusoto_core = { version = "*", default-features = false, features = ["rustls"] }
rusoto_s3 = { version = "*", default-features = false, features = ["rustls"] }
netlify_lambda_http = "*"
multipart = { version = "0.18", default-features = false, features = ["server"] }

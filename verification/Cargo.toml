[package]
name = "store_fetch"
version = "0.1.0"
edition = "2021"
publish = false

[dependencies]
anyhow = "1"
env_logger = "0.10"
log = "0.4"
openssl-probe = "0.1"
rusoto_core = { version = "0.48", default-features = false, features = ["rustls"] }
rusoto_s3 = { version = "0.48", default-features = false, features = ["rustls"] }
structopt = "0.3"
tokio = { version = "1", features = ["fs", "io-util", "macros", "rt-multi-thread", "time"] }

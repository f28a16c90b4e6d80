[package]
name = "jjinx"
version = "0.1.0"
edition = "2021"
publish = false

[dependencies]
regex = "1"
itoa = "1"
tokio = { version = "1", features = ["full"] }
futures = "0.3"
rustls = { version = "0.23", default-features = false, features = ["ring", "std", "tls12", "logging"] }
tokio-rustls = { version = "0.26", default-features = false, features = ["ring", "tls12", "logging"] }
rustls-native-certs = "0.8"
rustls-pemfile = "2"
twox-hash = "2"
thiserror = "2"
scopeguard = "1"

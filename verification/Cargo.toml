[package]
name = "selium"
version = "0.1.0"
edition = "2021"
publish = false

[dependencies]
rcgen = { version = "=0.14.10", features = ["x509-parser"] }
rustls-pki-types = "=1.15.1"
time = "=0.3.55"
thiserror = "=2.0.21"
clap = { version = "=4.6.7", features = ["derive"] }

[dev-dependencies]
x509-parser = "=0.18.1"

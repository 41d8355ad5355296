[package]
name = "mgen"
version = "0.1.0"
edition = "2021"
publish = false

[dependencies]
anyhow = "1"
chrono = "0.4"
csv = "1"
futures = "0.3"
glob = "0.3"
hyper = { version = "0.14", features = ["client", "server", "http1", "tcp", "runtime"] }
hyper-rustls = "0.24"
hyper-socks2 = { version = "0.8", default-features = false }
rand = "0.8"
rand_distr = "0.4"
rand_xoshiro = "0.6"
rayon = "1"
rustc-hash = "1"
rustls = { version = "0.21", features = ["dangerous_configuration"] }
rustls-pemfile = "1"
serde = { version = "1", features = ["derive"] }
serde_json = "1"
serde_repr = "0.1"
serde_yaml = "0.9"
time = "0.3"
tokio = { version = "1", features = ["full"] }
tokio-rustls = "0.24"
tokio-socks = "0.5"
url = "2"

[package]
name = "sliced"
version = "0.1.0"
edition = "2021"
publish = false

[dependencies]
pingora-ketama = "=0.9.0"
pingora = "*"
pingora-core = "*"
pingora-error = "*"
pingora-http = "*"
pingora-load-balancing = "*"
pingora-proxy = "*"
libsql = { version = "*", default-features = false, features = ["core"] }
hickory-resolver = "*"
tokio = { version = "*", default-features = false, features = ["rt-multi-thread"] }
async-trait = "*"
log = "*"
serde = { version = "*", features = ["derive"] }
serde_json = "*"

[package]
name = "light"
version = "0.1.0"
edition = "2021"
publish = false

[dependencies]
hmac = "=0.12.1"
jwt = "=0.16.0"
sha2 = "=0.10.9"
pnet = "*"
json = "*"
actix-files = "*"
actix-http = "*"
actix-web = "*"
bytes = "*"
env_logger = "*"
futures-util = "*"
log = "*"
reqwest = { version = "*", default-features = false }
serde = { version = "*", features = ["derive"] }
serde_json = "*"
time = "*"
tokio = { version = "*", features = ["rt-multi-thread", "macros", "time"] }

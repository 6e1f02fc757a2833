[package]
name = "wiki_rs"
version = "0.1.0"
edition = "2021"
publish = false

[dependencies]
pulldown-cmark = { version = "0.9", default-features = false }
urlencoding = "2"
uuid = { version = "1", features = ["v4"] }
chrono = "0.4"
serde = { version = "1", features = ["derive"] }
serde_json = "1"
jsonwebtoken = "8"
actix-web = { version = "4", features = ["openssl"] }
actix-files = "0.6"
actix-multipart = "0.6"
actix-cors = "0.6"
actix-web-httpauth = "0.8"
futures = "0.3"
env_logger = "0.9"
openssl = "0.10"

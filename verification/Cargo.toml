[package]
name = "rustorrent"
version = "0.1.0"
edition = "2021"
publish = false

[dependencies]
anyhow = "1"
clap = { version = "4", features = ["derive"] }
hex = "0.4"
rand = "*"
reqwest = { version = "*", default-features = false, features = ["blocking"] }
serde_json = "1"
sha1 = "0.10"
thiserror = "2"
url = "2"
urlencoding = "2"

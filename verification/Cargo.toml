[package]
name = "starview"
version = "0.1.0"
edition = "2021"
publish = false

[dependencies]
base64 = "*"
sha1 = "*"
hex = "*"
url = "*"
uuid = { version = "*", features = ["v4"] }
serde = { version = "*", features = ["derive"] }
serde_json = "*"
thiserror = "*"
clap = { version = "*", features = ["derive"] }
reqwest = { version = "*", default-features = false }
tokio = { version = "*", features = ["macros", "rt-multi-thread", "sync", "fs", "io-util", "time"] }
futures-util = "*"
indicatif = "*"
walkdir = "*"
tempfile = "*"
zip = { version = "*", default-features = false, features = ["deflate"] }
patch = "*"

[dev-dependencies]
rmp-serde = "*"

[package]
name = "reflector_rs"
version = "0.1.0"
edition = "2021"
publish = false

[dependencies]
base64 = "*"
regex = "*"
clap = { version = "*", features = ["derive"] }
dirs = "*"
lazy_static = "*"
reqwest = { version = "*", default-features = false, features = ["json"] }
serde = { version = "*", features = ["derive"] }
serde_json = "*"
thiserror = "*"
tokio = { version = "*", features = ["macros", "rt-multi-thread", "fs", "time"] }
url = "*"

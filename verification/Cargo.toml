[package]
name = "multipart_backup"
version = "0.1.0"
edition = "2021"
publish = false

[dependencies]
bincode = "1.3"
byteorder = "1"
clap = { version = "4", features = ["derive"] }
env_logger = "0.10"
log = "0.4"
md5 = "0.7"
serde = { version = "1", features = ["derive"] }
serde_json = "1"

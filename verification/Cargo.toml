[package]
name = "pgvm"
version = "0.1.0"
edition = "2021"
publish = false

[dependencies]
hex = "0.4"
openssl = "0.10"
bincode = "1.3"
clap = { version = "3.2", features = ["derive", "env"] }
compress-tools = "0.14"
dialoguer = "0.10"
dirs = "4"
indicatif = "0.17"
serde = { version = "1", features = ["derive"] }
serde-xml-rs = "0.6"
sled = "0.34"
thiserror = "1"
ureq = "2"

[package]
name = "scip_cli"
version = "0.1.0"
edition = "2021"
publish = false

[dependencies]
anyhow = "1"
clap = { version = "4", features = ["derive"] }
protobuf = "3"
scip = "*"
serde = { version = "1", features = ["derive"] }
serde_json = "1"
serde_yaml = "*"
sha2 = "0.10"
url = "2"

[dev-dependencies]
tempfile = "3"

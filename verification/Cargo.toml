[package]
name = "rustygene"
version = "0.1.0"
edition = "2021"
publish = false

[dependencies]
chrono = "=0.4.45"
uuid = { version = "=1.29.0", features = ["v4", "v5"] }
sha2 = "=0.10.9"
serde = { version = "=1.0.229", features = ["derive"] }
serde_json = "=1.0.154"
xmltree = { version = "=0.10.3", features = ["attribute-order"] }
clap = { version = "=4.6.7", features = ["derive"] }

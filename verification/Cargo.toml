[package]
name = "rights_engine"
version = "0.1.0"
edition = "2021"
publish = false

[dependencies]
mysql_async = "*"
tokio = { version = "*", features = ["macros", "rt-multi-thread"] }
serde_json = "*"

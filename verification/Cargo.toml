[package]
name = "reforger_stats"
version = "0.1.0"
edition = "2021"
publish = false

[dependencies]
dotenv = "*"
mysql = "*"
uuid = { version = "*", features = ["v4"] }

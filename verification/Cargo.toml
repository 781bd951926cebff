[package]
name = "subscrub"
version = "0.1.0"
edition = "2021"
publish = false

[dependencies]
clap = { version = "4", features = ["derive"] }
console = "*"
dirs = "*"
encoding_rs = "*"
glob = "*"
indicatif = "*"
inquire = "*"
isolang = "*"
regex = "1"
serde_json = "1"

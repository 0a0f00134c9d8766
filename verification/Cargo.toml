[package]
name = "fqdt"
version = "0.1.0"
edition = "2021"
publish = false

[dependencies]
clap = { version = "4", features = ["derive"] }
id3 = "1"
indicatif = "0.17"
minreq = "2"
serde_json = "1"
zip = { version = "2", default-features = false, features = ["deflate"] }

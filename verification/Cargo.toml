[package]
name = "vcurl"
version = "0.1.0"
edition = "2021"
publish = false

[dependencies]
serde_json = "1"
url = "2"
structopt = "0.3"
reqwest = { version = "0.12", default-features = false, features = ["blocking"] }

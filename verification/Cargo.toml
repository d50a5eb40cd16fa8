[package]
name = "jsonref"
version = "0.1.0"
edition = "2021"
publish = false

[dependencies]
serde_json = "1"
url = "2"
ureq = { version = "2", features = ["json"] }
derive_more = { version = "2", features = ["display", "error", "from"] }

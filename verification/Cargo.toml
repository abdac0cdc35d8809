[package]
name = "fast_down"
version = "0.1.0"
edition = "2021"
publish = false

[dependencies]
content_disposition = "*"
sanitize-filename = "*"
urlencoding = "*"
reqwest = { version = "*", default-features = false, features = ["blocking"] }
crossbeam-channel = "*"
crossterm = "*"
url = "*"
path-clean = "*"

[package]
name = "torrent_client"
version = "0.1.0"
edition = "2021"
publish = false

[dependencies]
sha1 = "0.10"
hex = "0.4"
urlencoding = "2"
reqwest = { version = "0.12", default-features = false, features = ["blocking"] }

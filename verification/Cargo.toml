[package]
name = "vweditor"
version = "0.1.0"
edition = "2021"
publish = false

[dependencies]
zip = { version = "2", default-features = false, features = ["deflate"] }
memchr = "2"
rayon = "1"
sys-locale = "0.3"
mimalloc = { version = "0.1", default-features = false }

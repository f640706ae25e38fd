[package]
name = "epub_cache"
version = "0.1.0"
edition = "2021"
publish = false

[dependencies]
fancy-regex = "*"
zip = "*"
tempfile = "*"
walkdir = "*"
chardetng = "*"
encoding_rs = "*"
chrono = "*"
md5 = "*"

[package]
name = "auto_sitemap"
version = "0.1.0"
edition = "2021"
publish = false

[dependencies]
chrono = "0.4"
md5 = "0.7"
spider = { version = "*", default-features = false }
url = "2"
xml-rs = "0.8"
yaserde = "0.8"

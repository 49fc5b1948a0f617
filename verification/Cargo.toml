[package]
name = "dex_parser"
version = "0.1.0"
edition = "2021"
publish = false

[dependencies]
memchr = "2"
sha1 = "0.10"
thiserror = "1"
clap = { version = "4", features = ["derive"] }
zip = { version = "2", default-features = false, features = ["deflate"] }

[package]
name = "zippy"
version = "0.1.0"
edition = "2021"
publish = false

[dependencies]
zip = { version = "0.6", default-features = false, features = ["bzip2", "deflate", "zstd"] }
walkdir = "2"
clap = { version = "4", features = ["derive"] }

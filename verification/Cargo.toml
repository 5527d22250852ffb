[package]
name = "epub_subset"
version = "0.1.0"
edition = "2021"
publish = false

[dependencies]
allsorts = "*"
scraper = "*"
zip = { version = "*", default-features = false, features = ["deflate"] }
clap = { version = "*", features = ["derive"] }
walkdir = "*"
memmap2 = "*"

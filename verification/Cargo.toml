[package]
name = "pcasts"
version = "0.1.0"
edition = "2021"
publish = false

[dependencies]
rayon = "*"
rss = "*"
clap = "*"
colored = "*"
indicatif = "*"
reqwest = { version = "*", default-features = false, features = ["blocking"] }

[package]
name = "alofmt"
version = "0.1.0"
edition = "2021"
publish = false

[dependencies]
anyhow = "1"
clap = { version = "4", features = ["derive"] }
ignore = "0.4"
memchr = "2"
rayon = "1"
ruby-prism = "*"
rustc-hash = "2"
serde = { version = "1", features = ["derive"] }
similar = "2"
toml = "*"

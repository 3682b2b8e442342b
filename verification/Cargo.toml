[package]
name = "md2pptx"
version = "0.1.0"
edition = "2021"
publish = false

[dependencies]
anstream = "0.6"
anstyle = "1"
clap = { version = "4", features = ["derive"] }
pulldown-cmark = { version = "0.10", default-features = false }
serde = { version = "1", features = ["derive"] }
thiserror = "1"
toml = "0.8"
zip = { version = "2", default-features = false, features = ["deflate"] }

[package]
name = "xshell_session"
version = "0.1.0"
edition = "2021"
publish = false

[dependencies]
clap = { version = "4", features = ["derive"] }
zeroize = "1"
zip = { version = "2", default-features = false, features = ["deflate"] }

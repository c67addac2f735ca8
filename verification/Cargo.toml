[package]
name = "spotify_shuffle"
version = "0.1.0"
edition = "2021"
publish = false

[dependencies]
failure = "=0.1.8"
rand = "=0.7.3"
rspotify = { version = "0.13", default-features = false, features = ["client-ureq", "ureq-rustls-tls", "cli"] }
structopt = "=0.2.18"

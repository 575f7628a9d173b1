[package]
name = "rss_torrent"
version = "0.1.0"
edition = "2021"
publish = false

[dependencies]
quick-xml = { version = "0.37", default-features = false }

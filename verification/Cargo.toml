[package]
name = "dai"
version = "0.1.0"
edition = "2021"
publish = false

[dependencies]
anyhow = "1"
serde = { version = "1", features = ["derive"] }
serde_json = "1"
percent-encoding = "2"
htmd = "*"
scraper = "*"
comrak = "*"
ammonia = "*"
url = "2"
toml = "*"
serde-saphyr = "*"
time = { version = "0.3", features = ["formatting"] }
rusqlite = { version = "*", features = ["bundled"] }
tantivy = "*"
reqwest = { version = "0.12", default-features = false, features = ["blocking", "json", "rustls-tls"] }
flate2 = "1"
tar = "0.4"
directories = "*"
rayon = "1"
tempfile = "3"
uuid = { version = "1", features = ["v4"] }
clap = { version = "4", features = ["derive"] }

[package]
name = "crawlsearch"
version = "0.1.0"
edition = "2021"
publish = false

[dependencies]
regex = "1"
scraper = "*"
reqwest = { version = "0.11", default-features = false, features = ["rustls-tls"] }
rocket = { version = "0.5", features = ["json"] }
rocket_db_pools = { version = "0.1", features = ["sqlx_sqlite"] }

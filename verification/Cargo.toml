[package]
name = "mdgo"
version = "0.1.0"
edition = "2021"
publish = false

[dependencies]
ammonia = "4"
async-trait = "0.1"
bytes = "1"
chrono = "0.4"
futures = "0.3"
futures-util = "0.3"
htmd = "*"
log = "0.4"
readability = { version = "*", default-features = false }
regex = "1"
reqwest = { version = "0.12", default-features = false, features = ["json", "stream"] }
rusqlite = "*"
scraper = "*"
serde = { version = "1", features = ["derive"] }
serde_json = "1"
sysinfo = "*"
tokio = { version = "1", features = ["rt", "sync", "time", "macros"] }
tokio-util = "0.7"
walkdir = "2"

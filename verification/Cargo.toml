[package]
name = "price_hunter"
version = "0.1.0"
edition = "2021"
publish = false

[dependencies]
scraper = "*"
ego-tree = "*"
url = "*"
strsim = "*"
serde = { version = "1", features = ["derive"] }
serde_json = "1"
csv = "1"
toml = "*"
dirs = "*"
anyhow = "1"
log = "0.4"
env_logger = "*"
tokio = { version = "1", features = ["rt-multi-thread", "macros", "time"] }
thirtyfour = "*"
async-trait = "0.1"
axum = "*"
ureq = { version = "*", features = ["json"] }
chrono = "0.4"
thiserror = "*"

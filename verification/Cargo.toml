[package]
name = "dw"
version = "0.2.1"
edition = "2021"
publish = false

[dependencies]
adler32 = "1"
ansi_term = "0.12"
anyhow = "1"
async-trait = "0.1"
byteorder = "1"
chrono = "0.4"
clap = "3"
clap_complete = "3"
env_logger = "0.9"
flate2 = "1"
futures = "0.3"
log = "0.4"
once_cell = "1"
patricia_tree = "0.8"
regex = "1"
reqwest = { version = "0.11", default-features = false, features = ["json", "rustls-tls"] }
scraper = "0.13"
serde = { version = "1", features = ["derive"] }
serde_json = "1"
sha2 = "0.10"
tokio = { version = "1", features = ["rt-multi-thread", "macros", "sync"] }
tokio-tungstenite = "0.17"
toml = "0.5"
uuid = { version = "1", features = ["v4"] }
warp = "0.3"
xdg = "2"

[package]
name = "libpijul"
version = "0.1.0"
edition = "2021"
publish = false

[dependencies]
whoami = "=1.6.1"
validator = "=0.16.1"
chrono = "=0.4.45"
dateparser = "=0.2.1"
blake3 = "=1.8.7"
data-encoding = "2"
indicatif = "=0.17.11"
dialoguer = { version = "=0.11.0", features = ["fuzzy-select"] }
clap = { version = "=4.6.7", features = ["derive"] }
serde = { version = "=1.0.229", features = ["derive"] }
serde_json = "=1.0.154"
toml = "=0.5.11"
dirs-next = "=2.0.0"
thiserror = "=1.0.69"
anyhow = "=1.0.104"
url = "=2.5.8"
rand = "=0.8.8"
log = "=0.4.35"
tokio = { version = "=1.54.1", features = ["rt-multi-thread", "macros", "sync", "net"] }
hyper = { version = "=0.14.32", features = ["server", "http1", "tcp"] }
open = "=5.4.5"
ptree = { version = "=0.4.0", default-features = false }

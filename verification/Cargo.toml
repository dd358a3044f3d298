[package]
name = "optimus"
version = "0.1.0"
edition = "2021"
publish = false

[dependencies]
rs_poker = { version = "=4.1.0", default-features = false }
itertools = "=0.15.0"
serde = { version = "=1.0.229", features = ["derive"] }
serde_json = "=1.0.154"
toml = "=1.1.8"
bincode = "=1.3.3"
rand = "=0.8.8"
rayon = "=1.12.0"
dashmap = "=5.5.3"
once_cell = "=1.21.4"
indicatif = "=0.17.11"
ahash = "=0.8.12"
smallvec = "=1.16.4"
moka = { version = "=0.12.16", features = ["sync"] }
actix-web = "=4.18.1"
actix-cors = "=0.7.2"
actix-files = "=0.7.3"
actix-rt = "=2.15.0"

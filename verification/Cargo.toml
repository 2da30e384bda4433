[package]
name = "dupsonic"
version = "0.1.0"
edition = "2021"
publish = false

[dependencies]
anyhow = "1"
axum = "0.8"
base64 = "0.22"
chromaprint-next = "*"
clap = { version = "4", features = ["derive", "env"] }
clap_complete = "4"
directories = "*"
globset = "0.4"
indicatif = "*"
ipnet = "2"
rayon = "1"
regex = "1"
rusqlite = { version = "*", features = ["bundled"] }
rusty-chromaprint = "*"
serde = { version = "1", features = ["derive"] }
serde_json = "1"
sha2 = "*"
symphonia = { version = "*", features = ["all"] }
tokio = { version = "1", features = ["rt-multi-thread", "net", "signal", "macros"] }
tracing = "0.1"
tracing-subscriber = { version = "0.3", features = ["env-filter"] }
trash = "*"
ureq = { version = "3", features = ["json"] }
walkdir = "2"

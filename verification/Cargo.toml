[package]
name = "spritebox"
version = "0.1.0"
edition = "2021"
publish = false

[dependencies]
async-trait = "0.1"
bytes = "=1.12.1"
clap = { version = "4", features = ["derive"] }
crossterm = "0.28"
fuser = { version = "0.15", default-features = false }
futures-util = "0.3"
http = "1"
libc = "0.2"
notify = "6"
notify-debouncer-full = "0.3"
postcard = { version = "1", features = ["use-std"] }
reqwest = { version = "0.12", default-features = false, features = ["json", "rustls-tls"] }
rpassword = "7"
serde = { version = "1", features = ["derive", "rc"] }
serde_json = "=1.0.154"
sha2 = "=0.10.9"
tokio = { version = "1", features = ["full"] }
tokio-tungstenite = { version = "=0.24.0", default-features = false, features = ["connect", "handshake", "rustls-tls-webpki-roots"] }
tracing = "0.1"
tracing-subscriber = { version = "0.3", features = ["env-filter"] }
url = "=2.5.8"

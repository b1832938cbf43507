[package]
name = "asteroids"
version = "0.1.0"
edition = "2021"
publish = false

[dependencies]
rustc-hash = "=2.1.3"
chumsky = "=0.9.3"
serde = { version = "=1.0.229", features = ["derive"] }
ron = "=0.12.2"
tokio = { version = "=1.54.1", features = ["rt", "macros", "signal", "sync"] }
tracing = "=0.1.44"
mint = "=0.5.9"
stardust-xr-fusion = "=0.50.0"
stardust-xr-molecules = "=0.50.0"
zbus = "=5.19.0"
inotify = "0.11"
futures-util = "0.3"

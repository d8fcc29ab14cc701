[package]
name = "ttcore"
version = "0.1.0"
edition = "2021"
publish = false

[dependencies]
embedded-io = "=0.7.1"
embedded-io-adapters = { version = "=0.7.0", features = ["std"] }
heapless = "=0.9.3"
bytemuck = "=1.25.2"
serde = { version = "=1.0.229", features = ["derive"] }
serde_json = "=1.0.154"
color-eyre = "=0.6.5"
cpal = "=0.11.0"
crossterm = { version = "=0.29.0", features = ["event-stream"] }
ratatui = "=0.30.2"
midly = "=0.5.3"
futures = "=0.3.34"
futures-timer = "=3.0.4"
env_logger = "=0.11.11"
log = "=0.4.35"
quick-xml = "=0.42.0"
hound = "=3.5.1"
claxon = "=0.4.3"
zip = { version = "=9.2.2", default-features = false, features = ["deflate"] }

[package]
name = "mirp"
version = "0.1.0"
edition = "2021"
publish = false

[dependencies]
anyhow = "=1.0.104"
chrono = "=0.4.45"
dashmap = "=6.2.1"
dotenvy = "=0.15.7"
log = "=0.4.34"
log4rs = "=1.4.0"
notify = "=8.2.1"
tokio = { version = "=1.54.1", features = ["full"] }

[dev-dependencies]
valence = "=0.1.0"

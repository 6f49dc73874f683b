[package]
name = "waterways"
version = "0.1.0"
edition = "2021"
publish = false

[dependencies]
anyhow = "1"
clap = "2"
env_logger = "*"
log = "0.4"
osmpbfreader = "*"
pathfinding = "4"
rusqlite = "*"
serde = { version = "1", features = ["derive"] }
tokio = { version = "1", features = ["full"] }
warp = "0.3"

[package]
name = "score_engine"
version = "0.1.0"
edition = "2021"
publish = false

[dependencies]
nom = "7"
clap = "3"
anyhow = "1"
log = "0.4"
env_logger = "0.9"
num-format = "0.4"
serde = { version = "1", features = ["derive"] }
bytes = "1"
tokio = { version = "1", features = ["macros", "rt-multi-thread"] }
warp = "0.3"

[package]
name = "tweet_archive"
version = "0.1.0"
edition = "2021"
publish = false

[dependencies]
chrono = { version = "=0.4.45", features = ["serde"] }
deadpool-postgres = "=0.14.2"
dotenv = "=0.15.0"
env_logger = "=0.11.11"
mime_guess = "=2.0.5"
serde = { version = "=1.0.229", features = ["derive"] }
tokio = { version = "=1.53.2", features = ["macros", "rt-multi-thread"] }
tokio-postgres = { version = "=0.7.18", features = ["with-chrono-0_4"] }
warp = { version = "=0.4.3", features = ["server"] }

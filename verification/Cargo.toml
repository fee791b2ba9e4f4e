[package]
name = "league_bot"
version = "0.1.0"
edition = "2021"
publish = false

[dependencies]
rand = "0.9"
poise = "0.6"
serenity = "0.12"
rusqlite = { version = "*", features = ["bundled"] }
reqwest = { version = "0.12", default-features = false, features = ["json", "rustls-tls"] }
serde = { version = "1", features = ["derive"] }
tokio = { version = "1", features = ["macros", "rt-multi-thread", "sync", "time"] }
dotenvy = "0.15"

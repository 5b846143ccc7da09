[package]
name = "cardamon_core"
version = "0.1.0"
edition = "2021"
publish = false

[dependencies]
itertools = "*"
chrono = { version = "0.4", default-features = false, features = ["alloc", "std", "clock"] }
anyhow = "1"
clap = { version = "4", features = ["derive"] }
colored = "*"
dotenvy = "*"
serde = { version = "1", features = ["derive"] }
serde_json = "1"
term-table = "*"
tokio = { version = "1", features = ["macros", "rt-multi-thread"] }
tracing = "0.1"
tracing-subscriber = { version = "0.3", features = ["env-filter"] }
sea-orm = { version = "*", default-features = false }

[package]
name = "rustance"
version = "0.2.0"
edition = "2021"
publish = false

[dependencies]
anstyle = "1"
chrono = "0.4"
clap = { version = "4", features = ["derive"] }
colored = "*"
dirs = "*"
serde = { version = "1", features = ["derive"] }
sqlx = { version = "0.8", default-features = false, features = ["runtime-tokio", "sqlite", "migrate", "macros", "chrono"] }
tabled = { version = "*", features = ["ansi"] }
tokio = { version = "1", features = ["macros", "rt-multi-thread"] }
toml = "*"

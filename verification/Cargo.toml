[package]
name = "invest_dash"
version = "0.1.0"
edition = "2021"
publish = false

[dependencies]
rust_decimal = "1.36"
uuid = { version = "1.11", features = ["v4"] }
chrono = "0.4"
rusqlite = { version = "0.32", features = ["bundled"] }
ratatui = "0.29"
crossterm = "0.28"
tokio = { version = "1", features = ["macros", "rt-multi-thread"] }
yahoo_finance_api = "4"
time = "0.3"
anyhow = "1"
serde = { version = "1", features = ["derive"] }

[package]
name = "investment_planner"
version = "0.1.0"
edition = "2021"
publish = false

[dependencies]
futures = "*"
sqlite = "*"
tokio = { version = "*", features = ["rt", "macros"] }
yahoo_finance_api = "*"

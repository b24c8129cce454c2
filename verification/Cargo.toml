[package]
name = "epoch_stake"
version = "0.1.0"
edition = "2021"
publish = false

[dependencies]
blockfrost = "*"
clap = { version = "*", features = ["derive", "env"] }
sqlx = { version = "*", default-features = false, features = ["runtime-tokio", "postgres"] }
tokio = { version = "*", features = ["rt-multi-thread", "macros"] }

[package]
name = "sea_orm_migration"
version = "0.1.0"
edition = "2021"
publish = false

[dependencies]
clap = { version = "=3.2.25", features = ["derive"] }
dotenv = "=0.15.0"
regex = "=1.13.1"
sea-orm = { version = "=0.10.7", default-features = false }
sea-orm-cli = { version = "=0.10.7", default-features = false, features = ["cli"] }
tracing-subscriber = { version = "=0.3.23", features = ["env-filter"] }

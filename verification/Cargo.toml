[package]
name = "afrr_records"
version = "0.1.0"
edition = "2021"
publish = false

[dependencies]
actix-web = "4"
reqwest = "0.11"
serde = { version = "1", features = ["derive"] }
serde_json = "1"
substring = "1"

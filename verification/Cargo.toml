[package]
name = "ozhlathi"
version = "0.1.0"
edition = "2021"
publish = false

[dependencies]
chrono = "*"
serde = { version = "*", features = ["derive"] }
serde_json = "*"
clap = { version = "*", features = ["derive"] }
reqwest = { version = "*", default-features = false, features = ["blocking", "json"] }
sys-info = "*"
rocket = { version = "*", features = ["json"] }
rocket_cors = "*"

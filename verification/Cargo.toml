[package]
name = "debt_ledger"
version = "0.1.0"
edition = "2021"
publish = false

[dependencies]
bcrypt = "*"
failure = "0.1"
rocket = { version = "0.5", features = ["secrets"] }
rocket_dyn_templates = { version = "*", features = ["tera"] }
rusqlite = { version = "*", features = ["bundled"] }
serde = { version = "1", features = ["derive"] }

[package]
name = "prom_sd"
version = "0.1.0"
edition = "2021"
publish = false

[dependencies]
reqwest = { version = "*", default-features = false, features = ["json"] }
rocket = { version = "*", features = ["json"] }
rocket_dyn_templates = { version = "*", features = ["handlebars"] }
serde = { version = "*", features = ["derive"] }
serde_json = "*"
tracing = "*"
tracing-subscriber = "*"

[package]
name = "wh_server"
version = "0.1.0"
edition = "2021"
publish = false

[dependencies]
argon2 = { version = "0.4", features = ["std"] }
rocket = { version = "0.5", features = ["json"] }
rocket_dyn_templates = { version = "0.1", features = ["handlebars"] }
reqwest = { version = "0.11", default-features = false }

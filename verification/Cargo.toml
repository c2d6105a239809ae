[package]
name = "quiz_server"
version = "0.1.0"
edition = "2021"
publish = false

[dependencies]
crossbeam = "0.8"
rocket = { version = "0.5", features = ["json"] }
rocket_dyn_templates = { version = "0.2", features = ["handlebars"] }
serde = { version = "1", features = ["derive"] }
serde_json = "1"
rand = "0.8"
log = "0.4"
simplelog = "0.12"

[package]
name = "gitinspector_core"
version = "0.1.0"
edition = "2021"
publish = false

[dependencies]
regex = "1"
chrono = "0.4"
serde = { version = "1", features = ["derive"] }
serde_json = "1"
clap = { version = "4", features = ["derive"] }
tokio = { version = "1", features = ["full"] }
futures = "0.3"
async-trait = "0.1"
indicatif = "*"
console = "*"
quick-xml = { version = "*", features = ["serialize"] }
askama = "*"

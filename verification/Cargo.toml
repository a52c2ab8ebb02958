[package]
name = "chainquery"
version = "0.1.0"
edition = "2021"
publish = false

[dependencies]
bitcoin = "=0.32.102"
elements = "=0.27.0"
hex = "=0.4.3"
serde = { version = "=1.0.229", features = ["derive"] }
serde_json = "=1.0.151"
hyper = { version = "=0.14.32", features = ["http1", "server", "tcp"] }
tokio = { version = "=1.53.2", features = ["rt-multi-thread"] }
url = "=2.5.8"

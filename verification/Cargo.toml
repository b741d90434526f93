[package]
name = "lessroutes"
version = "0.1.0"
edition = "2021"
publish = false

[dependencies]
clap = "*"
csv = "*"
futures = "*"
ipnet = { version = "*", features = ["serde"] }
itertools = "*"
log = "*"
reqwest = { version = "*", default-features = false, features = ["rustls-tls"] }
serde = { version = "*", features = ["derive"] }
serde_json = "*"
simplelog = "*"
tokio = { version = "*", features = ["macros", "rt-multi-thread"] }

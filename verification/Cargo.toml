[package]
name = "bok"
version = "0.1.0"
edition = "2021"
publish = false

[dependencies]
murmur3 = "*"
serde_json = "*"
hocon = "*"
anyhow = "*"
async-trait = "*"
bytes = "*"
clap = { version = "*", features = ["derive"] }
clap_complete = "*"
futures = "*"
glob = "*"
reqwest = { version = "*", default-features = false, features = ["json", "stream"] }
serde = { version = "*", features = ["derive"] }
serde_yaml = "*"

[package]
name = "mempool_client"
version = "0.1.0"
edition = "2021"
publish = false

[dependencies]
anyhow = "*"
bitcoincore-rpc = "*"
bytes = "*"
colored = "*"
config = { version = "*", default-features = false, features = ["toml"] }
dirs = "*"
futures-util = "*"
indicatif = "*"
reqwest = { version = "*", default-features = false, features = ["stream"] }
serde = { version = "*", features = ["derive"] }
tokio = { version = "*", features = ["macros", "rt-multi-thread"] }
url = "*"

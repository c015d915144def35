[package]
name = "arbitrage"
version = "0.1.0"
edition = "2021"
publish = false

[dependencies]
serde_json = "*"
hmac = "*"
sha2 = "*"
hex = "*"
csv = "*"
serde = { version = "*", features = ["derive"] }
reqwest = { version = "*", default-features = false }
tokio = { version = "*", features = ["rt-multi-thread", "macros", "time"] }
tungstenite = "*"
url = "*"
futures = "*"
async-trait = "*"
dotenv = "*"
thiserror = "*"

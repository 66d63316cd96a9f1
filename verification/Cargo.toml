[package]
name = "a_agent"
version = "0.1.0"
edition = "2021"
publish = false

[dependencies]
anyhow = "1"
async-openai = { version = "=0.43.0", default-features = false, features = ["byot", "chat-completion", "responses"] }
async-trait = "0.1"
crossterm = { version = "*", features = ["event-stream"] }
dialoguer = "*"
futures-util = "0.3"
indicatif = "*"
libc = "0.2"
reqwest = { version = "*", default-features = false }
rusqlite = { version = "*", features = ["bundled"] }
rustyline = "*"
serde = { version = "1", features = ["derive"] }
serde_json = "1"
strip-ansi-escapes = "*"
tempfile = "3"
threatflux-anthropic-sdk = { version = "0.3", default-features = false }
tokio = { version = "1", features = ["full"] }
tokio-util = "0.7"
toml = "*"
unicode-width = "*"
url = "2"
uuid = { version = "1", features = ["v4"] }

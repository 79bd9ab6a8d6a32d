[package]
name = "forthright_qa"
version = "0.1.0"
edition = "2021"
publish = false

[dependencies]
anyhow = "=1.0.104"
clap = { version = "=4.6.7", features = ["derive", "env"] }
dotenv = "=0.15.0"
openai = "=1.1.1"
polars = { version = "=0.55.2", default-features = false, features = ["csv"] }
tiktoken-rs = "=0.12.1"
tokio = { version = "=1.53.2", features = ["macros", "rt-multi-thread"] }

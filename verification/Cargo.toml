[package]
name = "blocklist_generator"
version = "0.1.0"
edition = "2021"
publish = false

[dependencies]
url = "*"
reqwest = { version = "*", default-features = false }
hyper = "*"
tokio = { version = "*", features = ["macros", "rt-multi-thread"] }
futures = "*"
serde = { version = "*", features = ["derive"] }
toml = "*"
clap = { version = "*", features = ["derive"] }
clap-verbosity-flag = "*"
env_logger = "*"
log = "*"
num-format = "*"
humansize = "*"

[package]
name = "ctags_ls"
version = "0.1.0"
edition = "2021"
publish = false

[dependencies]
lsp-types = "0.95"
lsp-server = "0.7"
serde_json = "1"
log = "0.4"
env_logger = "0.11"
chrono = "0.4"
tokio = { version = "1", features = ["macros", "rt-multi-thread"] }

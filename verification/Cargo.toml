[package]
name = "wiki_paths"
version = "0.1.0"
edition = "2021"
publish = false

[dependencies]
actix-web = "*"
actix-cors = "*"
serde_json = "*"
env_logger = "*"
log = "*"
once_cell = "*"
memmap2 = "*"

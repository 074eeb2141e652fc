[package]
name = "tag_externals"
version = "0.1.0"
edition = "2021"
publish = false

[dependencies]
anyhow = "*"
async-std = { version = "*", features = ["attributes"] }
env_logger = "*"
log = "*"
svn-cmd = "*"

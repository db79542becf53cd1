[package]
name = "memcached"
version = "0.1.0"
edition = "2021"
publish = false

[dependencies]
actix-web = "*"
config = "*"
duration-string = "*"
env_logger = "*"
log = "*"
serde = { version = "*", features = ["derive"] }

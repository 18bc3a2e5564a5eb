[package]
name = "vawk"
version = "1.7.0"
edition = "2021"
publish = false

[dependencies]
regex = "1"
csv = "1"
actix = "0.10"
actix-web = "3"
actix-web-actors = "3"
actix-http = "2"
actix-cors = "0.5"
bytes = "0.5"
clap = "2"
env_logger = "0.8"
futures = "0.3"
log = "0.4"

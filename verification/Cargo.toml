[package]
name = "reversi_path_finder"
version = "0.1.0"
edition = "2021"
publish = false

[dependencies]
easy-smt = "=0.3.2"
rand = "=0.9.5"
serde_json = "=1.0.154"

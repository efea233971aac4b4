[package]
name = "todo_list"
version = "0.1.0"
edition = "2021"
publish = false

[dependencies]
actix-web = "*"
askama = "*"
env_logger = "*"
r2d2 = "*"
r2d2_sqlite = { version = "*", features = ["bundled"] }

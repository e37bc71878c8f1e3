[package]
name = "minesweeper_server"
version = "0.1.0"
edition = "2021"
publish = false

[dependencies]
rand = "0.8"
serde = { version = "1", features = ["derive"] }
serde_json = "1"
uuid = { version = "1", features = ["v4"] }
actix = "0.13"
actix-web = "4"
actix-web-actors = "4"
bson = "2"
mongodb = "2"
mime = "0.3"

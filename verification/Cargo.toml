[package]
name = "spider"
version = "0.1.0"
edition = "2021"
publish = false

[dependencies]
url = "2"
select = "*"
reqwest = "*"
tokio = { version = "1", features = ["macros", "rt-multi-thread"] }

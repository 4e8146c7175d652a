[package]
name = "spider_firewall"
version = "0.1.0"
edition = "2021"
publish = false

[dependencies]
phf = { version = "*", features = ["macros"] }

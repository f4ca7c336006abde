[package]
name = "offliner"
version = "0.1.0"
edition = "2021"
publish = false

[dependencies]
mac_address = "*"
uuid = { version = "*", features = ["v4"] }

[package]
name = "dif_code"
version = "0.1.0"
edition = "2021"
publish = false

[dependencies]
base64 = "0.13"
image = "0.23"
minifb = "0.19"
ndarray = "0.15"
rand = "0.7"
reqwest = { version = "0.10", features = ["blocking"] }
threadpool = "1.8"

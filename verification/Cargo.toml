[package]
name = "stl_thumb"
version = "0.1.0"
edition = "2021"
publish = false

[dependencies]
ahash = "=0.8.12"
cgmath = "=0.18.0"
clap = "=4.6.7"
image = { version = "=0.25.10", default-features = false }
log = "0.4"
quick-xml = "=0.39.4"
ruststep = "=0.4.0"
stl_io = "=0.11.0"
tobj = { version = "=4.0.5", features = ["ahash"] }
truck-meshalgo = "=0.4.0"
truck-stepio = "=0.3.0"
zip = { version = "=8.6.0", default-features = false, features = ["deflate"] }

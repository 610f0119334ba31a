[package]
name = "mazer"
version = "0.1.0"
edition = "2021"
publish = false

[dependencies]
rand = "=0.9.5"
rand_chacha = "=0.9.0"
svg = "=0.18.0"
base64 = "0.22"
httparse = "1"
querystring = "1"
urlencoding = "2"

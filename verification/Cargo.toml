[package]
name = "http_client_multipart"
version = "0.1.0"
edition = "2021"
publish = false

[dependencies]
async-fs = "2"
base64 = "0.22"
fastrand = "2"
futures-lite = "2"
http-types = { version = "2", default-features = false }
mime_guess = "2"
quoted_printable = "0.5"

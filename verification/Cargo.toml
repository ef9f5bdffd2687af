[package]
name = "certcheck"
version = "0.1.0"
edition = "2021"
publish = false

[dependencies]
base64 = "0.13"
urlencoding = "2"
webpki = "0.22"
x509-parser = "0.14"

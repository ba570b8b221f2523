[package]
name = "multipart_form"
version = "0.1.0"
edition = "2021"
publish = false

[dependencies]
mime = "0.3"
rand = "0.8"

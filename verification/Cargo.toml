[package]
name = "odata_literal"
version = "0.1.0"
edition = "2021"
publish = false

[dependencies]
base64 = "0.21"
nom = "7"
time = "0.3"

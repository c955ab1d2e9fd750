[package]
name = "lance_encoding"
version = "0.1.0"
edition = "2021"
publish = false

[dependencies]
object_store = "*"
async-trait = "*"
bytes = "*"
futures = "*"
rand = "*"
tempfile = "*"

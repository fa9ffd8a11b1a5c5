[package]
name = "transform_hierarchy"
version = "0.1.0"
edition = "2021"
publish = false

[dependencies]
emerald = { version = "=0.3.214", default-features = false, features = ["aseprite"] }
asefile = "=0.3.6"

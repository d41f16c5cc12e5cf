[package]
name = "rough"
version = "0.1.0"
edition = "2021"
publish = false

[dependencies]
serde_yaml = "=0.9.34"
pulldown-cmark = "=0.13.4"
tera = { version = "=2.4.0", features = ["glob_fs"] }

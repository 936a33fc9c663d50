[package]
name = "sourcemap_vis"
version = "0.1.0"
edition = "2021"
publish = false

[dependencies]
serde_json = "1"
base64 = "0.22"
threadpool = "1"

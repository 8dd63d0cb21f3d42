[package]
name = "code_forge"
version = "0.1.0"
edition = "2021"
publish = false

[dependencies]
ropey = "1"
zed-sum-tree = "*"
flutter_rust_bridge = "2"

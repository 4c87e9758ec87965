[package]
name = "kitty_test_harness"
version = "0.1.0"
edition = "2021"
publish = false

[dependencies]
base64 = "*"
termwiz = "*"
kitty-remote-bindings = "*"

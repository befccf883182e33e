[package]
name = "narwhal-subdag"
version = "0.1.0"
edition = "2021"
publish = false

[dependencies]
indexmap = "2"

[package]
name = "topic_tree"
version = "0.1.0"
edition = "2021"
publish = false

[dependencies]
ntex-mqtt = "=7.6.1"

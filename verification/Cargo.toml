[package]
name = "subms"
version = "0.9.3"
edition = "2021"
publish = false

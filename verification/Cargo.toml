[package]
name = "dinochrome"
version = "0.1.0"
edition = "2021"
publish = false

[dependencies]
rand = "=0.10.3"
glam = "=0.30.10"

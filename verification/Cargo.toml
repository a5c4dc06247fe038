[package]
name = "yaml_expand"
version = "0.1.0"
edition = "2021"
publish = false

[dependencies]
yaml-rust2 = "=0.13.0"
hashlink = "=0.12.2"

[package]
name = "libxdm"
version = "0.1.0"
edition = "2021"
publish = false

[dependencies]
rustler = "=0.36.2"
xml-rs = "=0.8.29"

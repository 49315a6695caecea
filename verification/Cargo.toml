[package]
name = "csscolorparser"
version = "0.1.0"
edition = "2021"
publish = false

[dependencies]
cint = "0.2"
rgb = "0.8"
serde = "1"

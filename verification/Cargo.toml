[package]
name = "flashpdf-core"
version = "0.3.0"
edition = "2021"
publish = false

[dependencies]
miniz_oxide = "0.8"
pdf-writer = "0.12"
itoa = "1"
wasm-bindgen = "0.2"

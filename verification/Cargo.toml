[package]
name = "wasm_component_layer"
version = "0.1.0"
edition = "2021"
publish = false

[dependencies]
wasm_runtime_layer = "*"
wit-parser = "*"

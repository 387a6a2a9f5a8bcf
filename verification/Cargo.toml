[package]
name = "blueberry-codegen"
version = "0.1.0"
edition = "2021"
publish = false

[dependencies]
ariadne = "0.4"
console_error_panic_hook = "0.1"
js-sys = "0.3"
wasm-bindgen = "0.2"

[package]
name = "ivo"
version = "0.1.0"
edition = "2021"
publish = false

[dependencies]
lasso = "0.7"
codespan-reporting = "0.11"
colored = "2"

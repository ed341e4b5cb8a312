[package]
name = "ecma_runtime_cat"
version = "0.1.0"
edition = "2021"
publish = false

[dependencies]
boa-cat = "*"

[dev-dependencies]
ecma-lex-cat = "*"
ecma-parse-cat = "*"

[package]
name = "lark_type_check"
version = "0.1.0"
edition = "2021"
publish = false

[dependencies]
datafrog = "=2.0.1"
generational-arena = "=0.2.9"
codespan = "=0.13.1"
derive-new = "=0.7.0"
salsa = "=0.16.1"
indexmap = "=1.9.3"
rustc-hash = "=1.1.0"

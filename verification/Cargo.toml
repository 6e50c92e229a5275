[package]
name = "datalit"
version = "0.1.0"
edition = "2021"
publish = false

[dependencies]
syn = "2"
proc-macro2 = "1"
quote = "1"
num = "0.4"
thiserror = "2"
derive-syn-parse = "0.2"

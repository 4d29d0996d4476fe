[package]
name = "ini_core"
version = "0.2.0"
edition = "2021"
publish = false

[dependencies]
cfg-if = "1"
proc-macro2 = "1"
quote = "1"
syn = "2"

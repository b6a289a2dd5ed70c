[package]
name = "ccx"
version = "0.1.0"
edition = "2021"
publish = false

[dependencies]
slotted-egraphs = "*"
symbol_table = { version = "0.4", features = ["global"] }

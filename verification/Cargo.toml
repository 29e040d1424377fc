[package]
name = "pcb_router"
version = "0.1.0"
edition = "2021"
publish = false

[dependencies]
fixed = "1"
cgmath = "0.18"
ordered-float = "*"
rand = "0.9"

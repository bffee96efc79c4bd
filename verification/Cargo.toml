[package]
name = "largo_core"
version = "0.1.0"
edition = "2021"
publish = false

[dependencies]
rosc = "*"
ringbuf = "0.4"
cpal = "0.15"
steel-core = "*"

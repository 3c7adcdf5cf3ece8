[package]
name = "colony"
version = "0.1.0"
edition = "2021"
publish = false

[dependencies]
bevy = { version = "0.13", default-features = false }
big-brain = "0.20"
bevy-trait-query = "0.5"
bitflags = "2"
itertools = "0.12"
ndshape = "0.3"
ordered-float = "4"

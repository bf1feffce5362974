[package]
name = "chunk_world"
version = "0.1.0"
edition = "2021"
publish = false

[dependencies]
indexmap = "*"
macroquad = { version = "0.3", default-features = false }
once_cell = "1"
simple-simplex = "*"

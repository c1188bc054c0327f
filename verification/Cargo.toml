[package]
name = "free_map"
version = "0.1.0"
edition = "2021"
publish = false

[dependencies]
btree-slab = "=0.6.1"
slab = "*"

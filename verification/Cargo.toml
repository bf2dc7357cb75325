[package]
name = "cadalloc"
version = "0.1.0"
edition = "2021"
publish = false

[dev-dependencies]
loom = "0.7"

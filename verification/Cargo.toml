[package]
name = "recipies"
version = "0.1.0"
edition = "2021"
publish = false

[dependencies]
ndarray = "*"
plotters = { version = "*", default-features = false, features = ["bitmap_backend", "line_series"] }

[package]
name = "morton_grid"
version = "0.1.0"
edition = "2021"
publish = false

[dependencies]
morton-encoding = "*"
macroquad = { version = "*", default-features = false }

[package]
name = "weight_convert"
version = "0.1.0"
edition = "2021"
publish = false

[dependencies]
rocket = { version = "0.5", features = ["json"] }
once_cell = "1"
thiserror = "1"

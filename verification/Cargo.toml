[package]
name = "medical_ann"
version = "0.1.0"
edition = "2021"
publish = false

[dependencies]
ndarray = "*"
rocket = "*"
rocket_dyn_templates = { version = "*", features = ["handlebars"] }

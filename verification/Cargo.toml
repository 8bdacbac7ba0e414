[package]
name = "jigsaw_solver"
version = "0.1.0"
edition = "2021"
publish = false

[dependencies]
ndarray = "0.15"
serde = { version = "1", features = ["derive"] }
serde_json = "1"
rayon = "1"
eframe = "0.19"

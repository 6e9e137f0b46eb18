[package]
name = "sph_grid"
version = "0.1.0"
edition = "2021"
publish = false

[dependencies]
itertools = "0.12"
macroquad = "0.4"
rand = "0.8"
rayon = "1"
serde = { version = "1", features = ["derive"] }
serde_json = "1"
uom = "0.36"

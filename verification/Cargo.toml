[package]
name = "maze_generator"
version = "0.1.0"
edition = "2021"
publish = false

[dependencies]
macroquad = { version = "=0.4.16", default-features = false }
chrono = "=0.4.45"

[package]
name = "mcguffin_quest"
version = "0.1.0"
edition = "2021"
publish = false

[dependencies]
rltk = { version = "=0.8.7", default-features = false, features = ["crossterm"] }
serde = { version = "=1.0.229", features = ["derive"] }
specs = { version = "=0.16.1", features = ["serde"] }

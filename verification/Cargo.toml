[package]
name = "dungeon_builder"
version = "0.1.0"
edition = "2021"
publish = false

[dependencies]
rltk = "=0.8.7"
rand = "=0.8.8"
serde = { version = "=1.0.229", features = ["derive"] }
serde_json = "=1.0.154"
specs = { version = "=0.16.1", features = ["serde"] }
specs-derive = "=0.4.1"

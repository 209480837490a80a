[package]
name = "css_engine"
version = "0.1.0"
edition = "2021"
publish = false

[dependencies]
biome_css_syntax = "=0.5.8"
biome_parser = "=0.5.8"
biome_rowan = "=0.5.8"
serde = { version = "1", features = ["derive"] }
serde_json = "1"

[package]
name = "truth_mines_engine"
version = "0.1.0"
edition = "2021"
publish = false

[dependencies]
serde = { version = "1", features = ["derive"] }
serde_json = "1"
toml = "*"
bytemuck = { version = "1", features = ["derive"] }
wasm-bindgen = "0.2"
js-sys = "0.3"

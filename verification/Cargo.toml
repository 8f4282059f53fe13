[package]
name = "h1emu_ai"
version = "0.1.0"
edition = "2021"
publish = false

[dependencies]
bevy_ecs = "0.16"
binrw = "*"
chrono = "0.4"
js-sys = "0.3"
lz4_flex = "*"
once_cell = "1"
wasm-bindgen = "0.2"
web-sys = { version = "0.3", features = ["console"] }

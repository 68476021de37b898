[package]
name = "lime_core"
version = "0.1.0"
edition = "2021"
publish = false

[dependencies]
slotmap = "=1.1.1"
image = { version = "=0.25.10", default-features = false, features = ["png", "jpeg"] }
eframe = { version = "=0.31.1", default-features = false, features = ["default_fonts", "glow", "x11"] }
wasm-bindgen = "=0.2.130"
wasm-bindgen-futures = "=0.4.80"
js-sys = "=0.3.107"
web-sys = { version = "=0.3.107", features = ["Window", "Document", "Element", "HtmlCanvasElement", "HtmlInputElement", "File", "FileList", "FileReader", "Event"] }

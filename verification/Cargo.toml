[package]
name = "alg_viz"
version = "0.1.0"
edition = "2021"
publish = false

[dependencies]
itertools = "0.10"
clap = { version = "3.2", features = ["derive"] }
lazy_static = "1.4"
wasm-bindgen = "0.2"
web-sys = { version = "0.3", features = ["CanvasRenderingContext2d", "Document", "Element", "HtmlCanvasElement", "HtmlInputElement", "Window", "console"] }

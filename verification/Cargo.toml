[package]
name = "node_scene"
version = "0.1.0"
edition = "2021"
publish = false

[dependencies]
js-sys = "0.3"
scarlet = "*"
wasm-bindgen = "0.2"
web-sys = { version = "0.3", features = ["Document", "Element", "HtmlCanvasElement", "WebGlBuffer", "WebGlProgram", "WebGlRenderingContext", "WebGlShader", "WebGlUniformLocation", "Window", "console"] }

[package]
name = "emulator"
version = "0.1.0"
edition = "2021"
publish = false

[dependencies]
sfml = "0.16"
wasm-bindgen = "0.2"
js-sys = "0.3"
web-sys = { version = "0.3", features = ["Window", "Document", "Element", "HtmlCanvasElement", "WebGlRenderingContext", "WebGlProgram", "WebGlShader", "WebGlBuffer", "WebGlUniformLocation"] }
console_error_panic_hook = "0.1"
wee_alloc = "0.4"

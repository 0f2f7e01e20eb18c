[package]
name = "cadkernel"
version = "0.1.0"
edition = "2021"
publish = false

[dependencies]
glam = "*"
lyon = "*"
serde = { version = "*", features = ["derive"] }
serde-wasm-bindgen = "*"
wasm-bindgen = "*"
js-sys = "*"
const_format = "*"
web-sys = { version = "*", features = ["Document", "Element", "HtmlCanvasElement", "Window", "WebGl2RenderingContext", "WebGlBuffer", "WebGlFramebuffer", "WebGlProgram", "WebGlShader", "WebGlTexture", "WebGlUniformLocation", "WebGlVertexArrayObject"] }

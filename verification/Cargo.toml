[package]
name = "snake"
version = "0.1.0"
edition = "2021"
publish = false

[dependencies]
chrono = "0.4"
log = "0.4"
console_error_panic_hook = "0.1"
js-sys = "0.3"
wasm-bindgen = "0.2"
web-sys = { version = "0.3", features = ["console", "Window", "Document", "Element", "Node", "EventTarget", "HtmlElement", "HtmlInputElement", "HtmlSelectElement", "HtmlCanvasElement", "CanvasRenderingContext2d", "Event", "KeyboardEvent", "Storage", "CssStyleDeclaration"] }

[package]
name = "fizap"
version = "0.1.0"
edition = "2021"
publish = false

[dependencies]
actix-files = "0.6"
actix-web = { version = "4", default-features = false, features = ["macros"] }
bcrypt = "0.15"
chrono = "0.4"
clap = { version = "4", features = ["derive"] }
derive_more = "0.99"
dotenv = "0.15"
futures-util = "0.3"
gloo = "0.8"
gloo-console = "0.2"
gloo-utils = "0.1"
jsonwebtoken = "8"
mongodb = "2"
reqwasm = "0.5"
serde = { version = "1", features = ["derive"] }
serde_json = "1"
tokio = { version = "1", features = ["fs"] }
tracing-subscriber = "0.3"
wasm-bindgen = "0.2"
wasm-bindgen-futures = "0.4"
web-sys = { version = "0.3", features = ["CssStyleDeclaration", "Element", "Event", "EventTarget", "HtmlDivElement", "HtmlElement", "HtmlInputElement", "InputEvent", "IntersectionObserver", "IntersectionObserverEntry", "IntersectionObserverInit", "Window"] }
yew = { version = "0.20", features = ["csr", "ssr"] }
yew-router = "0.17"
yew_icons = { version = "0.7", features = ["BootstrapFileEarmark", "BootstrapFileEarmarkImage"] }
yewdux = "0.9"

[package]
name = "static_render"
version = "0.1.0"
edition = "2021"
publish = false

[dependencies]
linear-map = "1.2"
tracing = "0.1"
leptos = { version = "0.6", features = ["ssr"] }
leptos_meta = { version = "0.6", features = ["ssr"] }
leptos_integration_utils = "0.6"

[package]
name = "diff_rs"
version = "0.1.0"
edition = "2021"
publish = false

[dependencies]
anyhow = "1"
bytes = "=1.12.1"
comrak = { version = "*", default-features = false }
flate2 = "=1.1.10"
gloo-events = "0.2"
gloo-net = "0.5"
hex = { version = "=0.4.3", features = ["serde"] }
implicit-clone = "0.4"
indexmap = "2"
log = "0.4"
semver = { version = "=1.0.28", features = ["serde"] }
serde = { version = "1", features = ["derive"] }
serde_json = "=1.0.154"
sha2 = "=0.10.9"
similar = { version = "=2.7.0", features = ["bytes"] }
syntect = { version = "=5.3.0", default-features = false, features = ["default-fancy"] }
tar = { version = "=0.4.46", default-features = false }
thiserror = "1"
url = { version = "=2.5.8", features = ["serde"] }
wasm-bindgen-futures = "0.4"
wasm-logger = "0.2"
web-sys = { version = "0.3", features = ["HtmlInputElement", "HtmlSelectElement", "Location", "Window"] }
yew = { version = "0.21", features = ["csr"] }
yew-hooks = "0.3"
yew-router = "0.18"
yew_icons = { version = "0.8", features = ["LucideBox", "LucideFileDiff"] }
yewprint = "0.5"

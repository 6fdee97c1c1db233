[package]
name = "animepet"
version = "0.1.0"
edition = "2021"
publish = false

[dependencies]
serde = { version = "1", features = ["derive"] }
serde_json = "1"
toml = "0.8"
ureq = "3"
tiny_http = "0.12"
gtk = "0.18"
gtk-layer-shell = "0.8"
webkit2gtk = "2"
cairo-rs = "0.18"

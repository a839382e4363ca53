[package]
name = "osm-gpui"
version = "0.1.0"
edition = "2021"
publish = false

[dependencies]
serde = { version = "1", features = ["derive"] }
serde_json = "1"
urlencoding = "2"
sha2 = "0.10"
base64 = "0.22"
rand = "0.8"
keyring = "3"
dirs = "5"
tiny_http = "0.12"
open = "5"
ureq = "2"
anyhow = "1"

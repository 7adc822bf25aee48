[package]
name = "eew_renderer"
version = "0.1.0"
edition = "2021"
publish = false

[dependencies]
hmac = "*"
sha1 = "*"
sha2 = "*"
base65536 = "*"
urlencoding = "*"
serde_json = "*"
geo = "*"
earcutr = "*"
shapefile = "*"
axum = "*"
tokio = { version = "*", features = ["full"] }
moka = { version = "*", features = ["sync", "future"] }
rand = "*"
bytes = "*"

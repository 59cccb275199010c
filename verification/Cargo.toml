[package]
name = "vaulty"
version = "0.1.0"
edition = "2021"
publish = false

[dependencies]
base64 = "=0.23.1"
chrono = "=0.4.45"
image = { version = "=0.25.10", default-features = false, features = ["png"] }
lopdf = "=0.45.0"
reqwest = { version = "=0.13.5", default-features = false, features = ["blocking", "json"] }
rusqlite = { version = "=0.40.2", features = ["bundled"] }
serde = { version = "=1.0.229", features = ["derive"] }
serde_json = "=1.0.151"
uuid = { version = "=1.27.0", features = ["v4"] }

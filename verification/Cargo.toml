[package]
name = "openmath"
version = "0.1.0"
edition = "2021"
publish = false

[dependencies]
quick-xml = "=0.37.5"
serde = { version = "=1.0.229", features = ["derive"] }
serde_json = { version = "=1.0.154", features = ["arbitrary_precision"] }
either = "=1.19.0"
thiserror = "=2.0.21"
ordered-float = "=5.5.1"

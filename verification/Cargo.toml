[package]
name = "json_graph"
version = "0.1.0"
edition = "2021"
publish = false

[dependencies]
simd-json = { version = "=0.18.1", features = ["big-int-as-float"] }
serde = { version = "=1.0.229", features = ["derive"] }
pyo3 = { version = "=0.22.6", features = ["extension-module", "gil-refs"] }
dict_derive = "=0.6.0"

[dev-dependencies]
serde_json = "=1.0.154"

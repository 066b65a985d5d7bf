[package]
name = "json_table"
version = "0.1.0"
edition = "2021"
publish = false

[dependencies]
simdutf8 = "=0.1.5"
regex-lite = "=0.1.9"
json-flat-parser = { version = "=0.1.0", features = ["serde", "indexmap"] }
serde_json = "=1.0.154"
indexmap = "=2.14.2"

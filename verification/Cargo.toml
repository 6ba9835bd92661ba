[package]
name = "json_objects_to_csv"
version = "0.1.0"
edition = "2021"
publish = false

[dependencies]
csv = "1"
flatten-json-object = "*"
serde_json = { version = "1", features = ["preserve_order"] }
tempfile = "3"

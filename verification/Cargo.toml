[package]
name = "yaml_core"
version = "0.1.0"
edition = "2021"
publish = false

[dependencies]
serde = "1"
serde_yaml = "0.9"
num-traits = "0.2"
schemafy_lib = "*"

[dev-dependencies]

[package]
name = "json_to_class"
version = "0.1.0"
edition = "2021"
publish = false

[dependencies]
clap = { version = "3.2", features = ["derive"] }
convert_case = "0.6"
serde_json = "1"

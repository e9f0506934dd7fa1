[package]
name = "api_hierarchy"
version = "0.1.0"
edition = "2021"
publish = false

[dependencies]
pluralizer = "=0.5.0"
openapiv3 = "=2.2.0"
serde = "=1.0.229"
serde_yaml = "=0.9.34"
anyhow = "=1.0.104"
clap = { version = "=4.6.7", features = ["string"] }
convert_case = "=0.12.0"
thiserror = "=2.0.21"

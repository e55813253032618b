[package]
name = "vhdl_doc"
version = "0.1.0"
edition = "2021"
publish = false

[dependencies]
anyhow = "1"
derive_more = { version = "2", features = ["display"] }
log = "0.4"
schemars = "1"
serde = { version = "1", features = ["derive"] }
serde_json = "1"
serde_with = { version = "3", features = ["schemars_1"] }
tabled = "*"

[package]
name = "extension_lookup"
version = "0.1.0"
edition = "2021"
publish = false

[dependencies]
sea-orm = { version = "0.12", default-features = false, features = ["macros"] }

[package]
name = "tack"
version = "0.1.0"
edition = "2021"
publish = false

[dependencies]
anyhow = "1"
lexopt = "0.3"
rayon = "1"
serde_json = "1"
sha2 = "0.10"
toml_edit = "0.22"

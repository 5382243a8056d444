[package]
name = "oxytrouille"
version = "0.1.0"
edition = "2021"
publish = false

[dependencies]
deunicode = "*"
rand = "*"
ctrlc = "*"

[dev-dependencies]
serde_json = "*"

[package]
name = "storage"
version = "0.1.0"
edition = "2021"
publish = false

[dependencies]
candid = "*"
hex = "*"
ic-canister-kit = "*"
ic-cdk = "*"
serde = { version = "*", features = ["derive"] }
serde_json = "*"
sha2 = "*"
strum = "*"
strum_macros = "*"

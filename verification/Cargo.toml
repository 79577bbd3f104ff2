[package]
name = "pg_cocoon"
version = "0.1.0"
edition = "2021"
publish = false

[dependencies]
ahash = "0.8"
hashbrown = "0.15"
pgrx = { version = "0.16", default-features = false, features = ["pg17"] }

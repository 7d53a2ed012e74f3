[package]
name = "refcount_migrations"
version = "0.1.0"
edition = "2021"
publish = false

[dependencies]
borsh = "=1.8.1"
near-primitives = "=0.37.4"

[dev-dependencies]
near-crypto = "=0.37.4"

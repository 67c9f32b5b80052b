[package]
name = "schem_convert"
version = "0.1.0"
edition = "2021"
publish = false

[dependencies]
flate2 = "=1.1.10"
anyhow = "=1.0.104"
fastnbt = "=2.6.3"
r2d2 = "=0.8.10"
r2d2_sqlite = { version = "=0.35.0", features = ["bundled"] }

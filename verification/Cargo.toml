[package]
name = "period_search"
version = "0.1.0"
edition = "2021"
publish = false

[dependencies]
lazy_static = "1"
rayon = "1"

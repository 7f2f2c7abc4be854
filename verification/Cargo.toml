[package]
name = "osm_router"
version = "0.1.0"
edition = "2021"
publish = false

[dependencies]
quick-xml = "=0.42.0"
fixed = "*"
cordic = "*"

[package]
name = "range_bounds_map"
version = "0.1.0"
edition = "2021"
publish = false

[dependencies]
serde = { version = "*", features = ["derive"] }
btree_monstrousity = "*"
either = "*"

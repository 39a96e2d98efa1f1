[package]
name = "i_triangle"
version = "0.1.0"
edition = "2021"
publish = false

[dependencies]
i_overlay = "=9.1.0"
i_key_sort = "=0.12.0"
i_shape = "=5.0.0"
i_tree = "=0.20.0"

[dev-dependencies]
rand = "0.9"

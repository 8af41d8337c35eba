[package]
name = "const_sort"
version = "0.1.0"
edition = "2021"
publish = false

[dependencies]
subtle = "2"

[dev-dependencies]
rand = "*"

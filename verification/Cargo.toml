[package]
name = "kdl_query"
version = "0.1.0"
edition = "2021"
publish = false

[dependencies]
kdl = "*"

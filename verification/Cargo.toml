[package]
name = "oxc_tools"
version = "0.1.0"
edition = "2021"
publish = false

[dependencies]
editorconfig-parser = "*"
fast-glob = "1"
ignore = "0.4"
lazy-regex = "3"
rayon = "1"
rustc-hash = "2"
